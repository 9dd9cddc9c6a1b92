//! Memory records, and the requests that store and find them.

use vstd::prelude::*;
use crate::clock::Timestamp;
use crate::scores::Score;
use crate::text;
use crate::text_map::TextMap;

verus! {

/// How far a memory is worked out.
#[derive(Debug, Clone, Copy, PartialEq, Eq, Structural)]
pub enum MemoryTier {
    L0Raw,
    L1Atom,
}

impl MemoryTier {
    /// The name of the tier.
    pub open spec fn word(self) -> Seq<char> {
        match self {
            MemoryTier::L0Raw => "L0Raw"@,
            MemoryTier::L1Atom => "L1Atom"@,
        }
    }

    /// The name of the tier.
    pub fn label(self) -> (r: &'static str)
        ensures
            r@ == self.word(),
    {
        match self {
            MemoryTier::L0Raw => "L0Raw",
            MemoryTier::L1Atom => "L1Atom",
        }
    }
}

/// What can go wrong with a memory backend.
#[derive(Debug, Clone, PartialEq, Eq)]
pub enum MemoryError {
    /// A collection was built with another model, length or distance than is configured.
    CompatMismatch {
        collection_model: String,
        collection_dimensions: usize,
        configured_model: String,
        configured_dimensions: usize,
    },
    /// The backend cannot be reached or does not do its work.
    BackendUnavailable(String),
}

/// A stored memory.
pub struct MemoryRecord {
    pub id: String,
    pub node_id: String,
    pub content: String,
    pub tags: Vec<String>,
    pub metadata: TextMap<String>,
    pub tier: MemoryTier,
    pub created_at: Timestamp,
}

/// A memory to store.
pub struct StoreMemory {
    pub content: String,
    pub tags: Vec<String>,
    pub metadata: TextMap<String>,
    pub tier: MemoryTier,
    pub node_id: Option<String>,
}

/// What to look for.
#[derive(Debug, Clone, PartialEq, Eq)]
pub struct MemoryQuery {
    pub text: String,
    pub limit: usize,
    pub node_id: Option<String>,
}

/// How a memory was found.
#[derive(Debug, Clone, Copy, PartialEq, Eq, Structural)]
pub enum SearchSource {
    Keyword,
    Vector,
}

/// A memory that was found.
pub struct SearchHit {
    pub record: MemoryRecord,
    pub score: Score,
    pub source: SearchSource,
}

impl SearchHit {
    /// A memory that was found by its words.
    pub fn keyword(record: MemoryRecord, score: Score) -> (r: Self)
        ensures
            r.record == record,
            r.score == score,
            r.source == SearchSource::Keyword,
    {
        SearchHit { record, score, source: SearchSource::Keyword }
    }
}

/// How many memories are looked for when a request does not say.
pub const DEFAULT_FIND_LIMIT: usize = 10;

/// A request to find memories.
#[derive(Debug, Clone, PartialEq, Eq)]
pub struct FindRequest {
    pub query: String,
    pub limit: Option<usize>,
    pub node_id: Option<String>,
}

impl FindRequest {
    /// What the request looks for.
    pub fn into_query(self) -> (r: MemoryQuery)
        ensures
            r.text == self.query,
            r.limit == (match self.limit {
                Some(limit) => limit,
                None => DEFAULT_FIND_LIMIT,
            }),
            r.node_id == self.node_id,
    {
        MemoryQuery {
            text: self.query,
            limit: match self.limit {
                Some(limit) => limit,
                None => DEFAULT_FIND_LIMIT,
            },
            node_id: self.node_id,
        }
    }
}

/// One memory of an answer.
#[derive(Debug, Clone, PartialEq, Eq)]
pub struct FindHit {
    pub id: String,
    pub node_id: String,
    pub content: String,
    pub score: Score,
    pub tags: Vec<String>,
}

/// The answer to a request to find memories.
#[derive(Debug, Clone, PartialEq, Eq)]
pub struct FindResponse {
    pub hits: Vec<FindHit>,
}

impl FindHit {
    /// The answer tells of the memory that was found.
    pub open spec fn tells(self, hit: SearchHit) -> bool {
        &&& self.id == hit.record.id
        &&& self.node_id == hit.record.node_id
        &&& self.content == hit.record.content
        &&& self.score == hit.score
        &&& self.tags == hit.record.tags
    }
}

impl FindResponse {
    /// The answer with the memories that were found, in their order.
    pub fn from_hits(hits: Vec<SearchHit>) -> (r: Self)
        ensures
            r.hits@.len() == hits@.len(),
            forall|i: int| 0 <= i < hits@.len() ==> (#[trigger] r.hits@[i]).tells(hits@[i]),
    {
        let ghost all = hits@;
        let mut out: Vec<FindHit> = Vec::new();
        for hit in it: hits.into_iter()
            invariant
                it.seq() == all,
                out@.len() == it.index(),
                forall|i: int| 0 <= i < it.index() ==> (#[trigger] out@[i]).tells(all[i]),
        {
            out.push(
                FindHit {
                    id: hit.record.id,
                    node_id: hit.record.node_id,
                    content: hit.record.content,
                    score: hit.score,
                    tags: hit.record.tags,
                },
            );
        }
        FindResponse { hits: out }
    }
}

/// A request to store a memory.
#[derive(Debug, Clone, PartialEq, Eq)]
pub struct StoreRequest {
    pub content: String,
    pub tags: Option<Vec<String>>,
    pub node_id: Option<String>,
}

impl StoreRequest {
    /// The memory that the request asks to store: without tags where it gives none, without
    /// metadata, and worked out to an atom.
    pub fn into_memory(self) -> (r: StoreMemory)
        ensures
            r.content == self.content,
            self.tags is Some ==> r.tags == self.tags->0,
            self.tags is None ==> r.tags@.len() == 0,
            r.metadata@ == Map::<Seq<char>, String>::empty(),
            r.tier == MemoryTier::L1Atom,
            r.node_id == self.node_id,
    {
        StoreMemory {
            content: self.content,
            tags: match self.tags {
                Some(tags) => tags,
                None => Vec::new(),
            },
            metadata: TextMap::new(),
            tier: MemoryTier::L1Atom,
            node_id: self.node_id,
        }
    }
}

/// The answer to a request to store a memory.
#[derive(Debug, Clone, PartialEq, Eq)]
pub struct StoreResponse {
    pub id: String,
    pub node_id: String,
}

impl StoreResponse {
    /// The answer for a memory that was stored.
    pub fn from_record(record: &MemoryRecord) -> (r: Self)
        ensures
            r.id == record.id,
            r.node_id == record.node_id,
    {
        StoreResponse { id: record.id.clone(), node_id: record.node_id.clone() }
    }
}

/// The line that tells of a memory that was stored.
pub fn stored_line(record: &MemoryRecord) -> (r: String)
    ensures
        r@ == "stored memory id="@ + record.id@ + " node_id="@ + record.node_id@,
{
    let mut out = "stored memory id=".to_owned();
    out.append(record.id.as_str());
    out.append(" node_id=");
    out.append(record.node_id.as_str());
    out
}

/// The line that tells of a memory that was found. `score` is its score as text.
pub fn hit_line(hit: &SearchHit, score: &str) -> (r: String)
    ensures
        r@ == score@ + "\t"@ + hit.record.id@ + "\t"@ + hit.record.node_id@ + "\t"@
            + hit.record.content@,
{
    let mut out = score.to_owned();
    out.append("\t");
    out.append(hit.record.id.as_str());
    out.append("\t");
    out.append(hit.record.node_id.as_str());
    out.append("\t");
    out.append(hit.record.content.as_str());
    out
}

/// An answer tells of a memory by its id, its node, its content, its tags and how well it was found:
/// two memories that one answer tells of agree in all of these.
pub proof fn law_answers_tell_of_one_memory(answer: FindHit, a: SearchHit, b: SearchHit)
    requires
        answer.tells(a),
    ensures
        answer.tells(b) <==> a.record.id == b.record.id && a.record.node_id == b.record.node_id
            && a.record.content == b.record.content && a.record.tags == b.record.tags && a.score
            == b.score,
        answer.id == a.record.id,
        answer.node_id == a.record.node_id,
        answer.content == a.record.content,
        answer.tags == a.record.tags,
        answer.score == a.score,
{
}

} // verus!
