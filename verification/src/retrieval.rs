//! Reranking of search hits.

use vstd::prelude::*;
use crate::memory::SearchHit;
use crate::scores::Score;
use crate::sorting;
use crate::sorting::Ranked;
use crate::text;

verus! {

/// The terms of a query: its words in lower case.
pub open spec fn terms_of(query: Seq<char>) -> Seq<Seq<char>> {
    Seq::new(text::words(query).len(), |i: int| text::lowered(text::words(query)[i]))
}

/// The terms of a query: its words in lower case. None of them is empty.
pub fn query_terms(input: &str) -> (r: Vec<String>)
    ensures
        text::texts(r@) == terms_of(input@),
        forall|i: int| 0 <= i < r@.len() ==> (#[trigger] r@[i])@.len() > 0,
{
    let words = text::split_whitespace(input);
    let ghost all = text::words(input@);
    let mut out: Vec<String> = Vec::new();
    let mut i: usize = 0;
    proof {
        text::lemma_words_are_words(input@);
    }
    while i < words.len()
        invariant
            text::texts(words@) == all,
            forall|j: int| 0 <= j < all.len() ==> text::is_word(#[trigger] all[j]),
            i <= words@.len(),
            out@.len() == i,
            forall|j: int| 0 <= j < i ==> (#[trigger] out@[j])@ == text::lowered(all[j]),
            forall|j: int| 0 <= j < i ==> (#[trigger] out@[j])@.len() > 0,
        decreases words@.len() - i,
    {
        assert(all[i as int] == words@[i as int]@);
        out.push(text::to_ascii_lowercase(words[i].as_str()));
        i = i + 1;
    }
    assert(text::texts(out@) =~= terms_of(input@));
    out
}

/// Terms are words in lower case: none is empty or holds white space. The terms of the terms joined
/// by blanks are the same terms.
pub proof fn law_terms_split_back(query: Seq<char>)
    ensures
        forall|i: int| 0 <= i < terms_of(query).len() ==> text::is_word(#[trigger] terms_of(query)[i]),
        forall|i: int|
            0 <= i < terms_of(query).len() ==> text::lowered(#[trigger] terms_of(query)[i])
                == terms_of(query)[i],
        terms_of(text::joined(terms_of(query), " "@)) == terms_of(query),
{
    let terms = terms_of(query);
    text::lemma_words_are_words(query);
    assert forall|i: int| 0 <= i < terms.len() implies text::is_word(#[trigger] terms[i]) by {
        let word = text::words(query)[i];
        assert(text::is_word(word));
        assert forall|j: int| 0 <= j < terms[i].len() implies !text::is_space(
            #[trigger] terms[i][j],
        ) by {
            assert(!text::is_space(word[j]));
        }
    }
    assert forall|i: int| 0 <= i < terms.len() implies text::lowered(#[trigger] terms[i])
        == terms[i] by {
        assert(text::lowered(terms[i]) =~= terms[i]);
    }
    text::lemma_joined_words(terms);
    assert(terms_of(text::joined(terms, " "@)) =~= terms);
}

/// How often each term stands in a content, in any case of ASCII letters.
pub open spec fn counts_of(content: Seq<char>, terms: Seq<Seq<char>>) -> Seq<nat> {
    Seq::new(terms.len(), |i: int| text::count_of(text::lowered(content), terms[i]))
}

/// How often each term stands in a content. Terms have at least one character.
pub fn term_counts(content: &str, terms: &Vec<String>) -> (r: Vec<usize>)
    requires
        forall|i: int| 0 <= i < terms@.len() ==> (#[trigger] terms@[i])@.len() > 0,
    ensures
        r@.map_values(|n: usize| n as nat) == counts_of(content@, text::texts(terms@)),
{
    let lower = text::to_ascii_lowercase(content);
    let mut out: Vec<usize> = Vec::new();
    let mut i: usize = 0;
    while i < terms.len()
        invariant
            lower@ == text::lowered(content@),
            forall|j: int| 0 <= j < terms@.len() ==> (#[trigger] terms@[j])@.len() > 0,
            i <= terms@.len(),
            out@.len() == i,
            forall|j: int|
                0 <= j < i ==> #[trigger] out@[j] == text::count_of(lower@, terms@[j]@),
        decreases terms@.len() - i,
    {
        out.push(text::count_matches(lower.as_str(), terms[i].as_str()));
        i = i + 1;
    }
    assert(out@.map_values(|n: usize| n as nat) =~= counts_of(content@, text::texts(terms@)));
    out
}

/// A hit with the score by which it is reranked.
pub struct ScoredHit {
    pub rank: Score,
    pub hit: SearchHit,
}

impl View for ScoredHit {
    type V = ScoredHit;

    open spec fn view(&self) -> ScoredHit {
        *self
    }
}

/// The hit with the greater score goes first; of two with the same score, the one whose node
/// comes first in dictionary order.
impl Ranked for ScoredHit {
    open spec fn goes_before(a: ScoredHit, b: ScoredHit) -> bool {
        a.rank.place() > b.rank.place() || (a.rank.place() == b.rank.place() && text::precedes(
            a.hit.record.node_id@,
            b.hit.record.node_id@,
        ))
    }

    proof fn order_laws(a: ScoredHit, b: ScoredHit, c: ScoredHit) {
        let (x, y, z) = (a.hit.record.node_id@, b.hit.record.node_id@, c.hit.record.node_id@);
        text::lemma_precedes_irreflexive(x);
        if text::precedes(x, y) && text::precedes(y, z) {
            text::lemma_precedes_transitive(x, y, z);
        }
        if text::precedes(x, z) && !text::precedes(x, y) && !text::precedes(y, z) {
            text::lemma_precedes_total(x, y);
            text::lemma_precedes_total(y, z);
            if x != y && y != z {
                text::lemma_precedes_transitive(z, y, x);
                text::lemma_precedes_asymmetric(x, z);
            }
        }
    }

    fn is_before(&self, other: &Self) -> (r: bool) {
        let a = self.rank.rank();
        let b = other.rank.rank();
        if a > b {
            true
        } else if a == b {
            match text::rank(
                self.hit.record.node_id.as_str(),
                other.hit.record.node_id.as_str(),
            ) {
                text::Rank::Before => true,
                text::Rank::Same => {
                    proof {
                        text::lemma_precedes_irreflexive(self.hit.record.node_id@);
                    }
                    false
                },
                text::Rank::After => false,
            }
        } else {
            false
        }
    }
}

/// The first `limit` elements, or all of them when there are fewer.
pub open spec fn at_most<T>(list: Seq<T>, limit: int) -> Seq<T> {
    if list.len() <= limit {
        list
    } else {
        list.take(limit)
    }
}

/// The hits with the scores by which they are reranked.
pub open spec fn paired(hits: Seq<SearchHit>, ranks: Seq<Score>) -> Seq<ScoredHit> {
    Seq::new(hits.len(), |i: int| ScoredHit { rank: ranks[i], hit: hits[i] })
}

/// At most `limit` hits, best first.
pub open spec fn reranked(hits: Seq<SearchHit>, ranks: Seq<Score>, limit: int) -> Seq<SearchHit> {
    let best = at_most(sorting::stable_sorted::<ScoredHit>(paired(hits, ranks)), limit);
    Seq::new(best.len(), |i: int| best[i].hit)
}

/// Orders hits by score and keeps the best of them.
pub trait Reranker {
    /// At most `limit` hits, best first. `ranks` holds the score of each hit, and every one is a
    /// number.
    fn rerank(&self, hits: Vec<SearchHit>, ranks: &Vec<Score>, limit: usize) -> (r: Vec<SearchHit>)
        requires
            ranks@.len() == hits@.len(),
            forall|i: int| 0 <= i < ranks@.len() ==> !(#[trigger] ranks@[i]).nan(),
        ensures
            r@ == reranked(hits@, ranks@, limit as int),
    ;
}

/// Reranks hits by how often the terms of the query stand in them.
#[derive(Debug, Clone, Copy, PartialEq, Eq, Structural)]
pub struct LocalLexicalReranker;

impl LocalLexicalReranker {
    /// For each hit, how often each term of the query stands in it. The score of a hit is the sum
    /// of its counts plus a hundredth of its own score.
    pub fn lexical_counts(&self, query: &str, hits: &Vec<SearchHit>) -> (r: Vec<Vec<usize>>)
        ensures
            r@.len() == hits@.len(),
            forall|i: int|
                0 <= i < hits@.len() ==> (#[trigger] r@[i])@.map_values(|n: usize| n as nat)
                    == counts_of(hits@[i].record.content@, terms_of(query@)),
    {
        let terms = query_terms(query);
        let mut out: Vec<Vec<usize>> = Vec::new();
        let mut i: usize = 0;
        while i < hits.len()
            invariant
                text::texts(terms@) == terms_of(query@),
                forall|j: int| 0 <= j < terms@.len() ==> (#[trigger] terms@[j])@.len() > 0,
                i <= hits@.len(),
                out@.len() == i,
                forall|j: int|
                    0 <= j < i ==> (#[trigger] out@[j])@.map_values(|n: usize| n as nat)
                        == counts_of(hits@[j].record.content@, terms_of(query@)),
            decreases hits@.len() - i,
        {
            out.push(term_counts(hits[i].record.content.as_str(), &terms));
            i = i + 1;
        }
        out
    }
}

impl Reranker for LocalLexicalReranker {
    fn rerank(&self, hits: Vec<SearchHit>, ranks: &Vec<Score>, limit: usize) -> (r: Vec<
        SearchHit,
    >) {
        let ghost all = hits@;
        let mut pairs: Vec<ScoredHit> = Vec::new();
        for hit in it: hits.into_iter()
            invariant
                it.seq() == all,
                ranks@.len() == all.len(),
                pairs@ == paired(all, ranks@).take(it.index() as int),
        {
            let ghost i = it.index() as int;
            let rank = ranks[pairs.len()];
            pairs.push(ScoredHit { rank, hit });
            assert(paired(all, ranks@).take(i + 1) =~= paired(all, ranks@).take(i).push(
                paired(all, ranks@)[i],
            ));
        }
        assert(paired(all, ranks@).take(all.len() as int) =~= paired(all, ranks@));
        assert(sorting::views(pairs@) =~= paired(all, ranks@));
        let sorted = sorting::stable_sort(pairs);
        let ghost order = sorting::stable_sorted::<ScoredHit>(paired(all, ranks@));
        assert(sorting::views(sorted@) =~= sorted@);
        let mut out: Vec<SearchHit> = Vec::new();
        for pair in it: sorted.into_iter()
            invariant
                it.seq() == order,
                out@.len() == if it.index() <= limit {
                    it.index() as int
                } else {
                    limit as int
                },
                forall|j: int| 0 <= j < out@.len() ==> #[trigger] out@[j] == order[j].hit,
        {
            if out.len() < limit {
                out.push(pair.hit);
            }
        }
        assert(out@ =~= reranked(all, ranks@, limit as int));
        out
    }
}

/// The lexical reranker promotes what holds the terms of the query: a hit with a greater score
/// never stands behind one with a lesser score.
pub proof fn law_better_hits_first(hits: Seq<SearchHit>, ranks: Seq<Score>, i: int, j: int)
    requires
        ranks.len() == hits.len(),
        0 <= i < j < hits.len(),
    ensures
        ({
            let sorted = sorting::stable_sorted::<ScoredHit>(paired(hits, ranks));
            sorted[i].rank.place() >= sorted[j].rank.place()
        }),
{
    sorting::law_stable_sorted::<ScoredHit>(paired(hits, ranks));
    let sorted = sorting::stable_sorted::<ScoredHit>(paired(hits, ranks));
    assert(!ScoredHit::goes_before(sorted[j], sorted[i]));
}

/// Reranking keeps as many hits as it may, and each of them is one of the hits that it was given.
pub proof fn law_reranking_keeps_hits(hits: Seq<SearchHit>, ranks: Seq<Score>, limit: int)
    requires
        ranks.len() == hits.len(),
        limit >= 0,
    ensures
        reranked(hits, ranks, limit).len() == (if hits.len() <= limit {
            hits.len() as int
        } else {
            limit
        }),
        forall|i: int|
            0 <= i < reranked(hits, ranks, limit).len() ==> hits.contains(
                #[trigger] reranked(hits, ranks, limit)[i],
            ),
{
    broadcast use vstd::seq_lib::group_to_multiset_ensures;

    let all = paired(hits, ranks);
    let sorted = sorting::stable_sorted::<ScoredHit>(all);
    sorting::law_stable_sorted::<ScoredHit>(all);
    assert forall|i: int| 0 <= i < reranked(hits, ranks, limit).len() implies hits.contains(
        #[trigger] reranked(hits, ranks, limit)[i],
    ) by {
        assert(sorted.contains(sorted[i]));
        assert(sorted.to_multiset().contains(sorted[i]));
        assert(all.contains(sorted[i]));
        let k = choose|k: int| 0 <= k < all.len() && all[k] == sorted[i];
        assert(hits[k] == sorted[i].hit);
    }
}

/// What a model for reranking says of one document: its position and its score.
#[derive(Debug, Clone, Copy, PartialEq, Eq, Structural)]
pub struct RankedDocument {
    pub index: usize,
    pub score: Score,
}

/// The hits that the first `n` ranked documents stand for, with their new scores. A document that
/// stands for no hit is passed over.
pub open spec fn picked(hits: Seq<SearchHit>, ranked: Seq<RankedDocument>, n: int) -> Seq<
    (int, Score),
>
    decreases n,
{
    if n <= 0 {
        Seq::empty()
    } else if ranked[n - 1].index < hits.len() {
        picked(hits, ranked, n - 1).push((ranked[n - 1].index as int, ranked[n - 1].score))
    } else {
        picked(hits, ranked, n - 1)
    }
}

/// The batch size that a reranking model is run with.
pub const RERANK_BATCH_SIZE: usize = 8;

/// Whether a reranking model has to be asked: only when there are more hits than wanted.
pub fn needs_model(hits: &Vec<SearchHit>, limit: usize) -> (r: bool)
    ensures
        r == (hits@.len() > limit),
{
    hits.len() > limit
}

/// The positions and new scores of the hits that a reranking model chose: those of the first
/// `limit` ranked documents.
pub fn apply_ranking(hits: &Vec<SearchHit>, ranked: &Vec<RankedDocument>, limit: usize) -> (r: Vec<
    (usize, Score),
>)
    ensures
        r@.map_values(|p: (usize, Score)| (p.0 as int, p.1)) == picked(
            hits@,
            ranked@,
            if ranked@.len() <= limit {
                ranked@.len() as int
            } else {
                limit as int
            },
        ),
        forall|i: int| 0 <= i < r@.len() ==> (#[trigger] r@[i]).0 < hits@.len(),
{
    let mut out: Vec<(usize, Score)> = Vec::new();
    let mut i: usize = 0;
    assert(out@.map_values(|p: (usize, Score)| (p.0 as int, p.1)) =~= picked(hits@, ranked@, 0));
    while i < ranked.len() && i < limit
        invariant
            i <= ranked@.len(),
            i <= limit,
            out@.map_values(|p: (usize, Score)| (p.0 as int, p.1)) == picked(
                hits@,
                ranked@,
                i as int,
            ),
            forall|j: int| 0 <= j < out@.len() ==> (#[trigger] out@[j]).0 < hits@.len(),
        decreases ranked@.len() - i,
    {
        let document = ranked[i];
        if document.index < hits.len() {
            let ghost before = out@;
            out.push((document.index, document.score));
            assert(out@.map_values(|p: (usize, Score)| (p.0 as int, p.1)) =~= before.map_values(
                |p: (usize, Score)| (p.0 as int, p.1),
            ).push((document.index as int, document.score)));
        }
        i = i + 1;
    }
    out
}

/// The terms of a query are its words, in their order and in lower case: those of two queries with
/// white space between them are those of the first, then those of the second.
pub proof fn law_terms_are_lower_case_words(a: Seq<char>, c: char, b: Seq<char>)
    requires
        text::is_space(c),
    ensures
        terms_of(a + seq![c] + b) == terms_of(a) + terms_of(b),
        text::is_word(a) ==> terms_of(a) == seq![text::lowered(a)],
        terms_of(Seq::empty()).len() == 0,
{
    crate::text_laws::law_words_split_at_space(a, c, b);
    assert(terms_of(a + seq![c] + b) =~= terms_of(a) + terms_of(b));
    if text::is_word(a) {
        assert(terms_of(a) =~= seq![text::lowered(a)]);
    }
}

/// A term counts for a content as often as it stands in it, in any case: not at all exactly when it
/// stands nowhere in it, and once more when the content has it in front.
pub proof fn law_terms_are_counted(content: Seq<char>, terms: Seq<Seq<char>>, i: int)
    requires
        0 <= i < terms.len(),
        terms[i].len() > 0,
        text::lowered(terms[i]) == terms[i],
    ensures
        counts_of(content, terms).len() == terms.len(),
        counts_of(content, terms)[i] == 0 <==> !text::has_text(text::lowered(content), terms[i]),
        counts_of(terms[i] + content, terms)[i] == 1 + counts_of(content, terms)[i],
        counts_of(text::lowered(content), terms) == counts_of(content, terms),
{
    let low = text::lowered(content);
    crate::text_laws::law_occurrences_counted_and_replaced(terms[i], low, Seq::empty());
    assert(text::lowered(terms[i] + content) =~= text::lowered(terms[i]) + low);
    crate::text_laws::law_lower_case_changes_letters_only(content);
    assert(counts_of(low, terms) =~= counts_of(content, terms));
}

/// The best hits are kept: of the sorted hits the first as many as wanted, so that none that is left
/// out has a greater score than one that is kept; of two with the same score the one whose node comes
/// first in dictionary order stands first.
pub proof fn law_best_hits_are_kept(
    hits: Seq<SearchHit>,
    ranks: Seq<Score>,
    limit: int,
    i: int,
    j: int,
)
    requires
        ranks.len() == hits.len(),
        0 <= i < j < hits.len(),
        0 <= limit,
    ensures
        ({
            let sorted = sorting::stable_sorted::<ScoredHit>(paired(hits, ranks));
            let kept = reranked(hits, ranks, limit);
            &&& i < limit ==> kept[i] == sorted[i].hit
            &&& sorted[i].rank.place() >= sorted[j].rank.place()
            &&& sorted[i].rank.place() == sorted[j].rank.place() ==> !text::precedes(
                sorted[j].hit.record.node_id@,
                sorted[i].hit.record.node_id@,
            )
        }),
{
    sorting::law_stable_sorted::<ScoredHit>(paired(hits, ranks));
    let sorted = sorting::stable_sorted::<ScoredHit>(paired(hits, ranks));
    assert(!ScoredHit::goes_before(sorted[j], sorted[i]));
}

/// Every hit goes into the ranking with its own score.
pub proof fn law_hits_are_ranked_by_their_own_scores(hits: Seq<SearchHit>, ranks: Seq<Score>, i: int)
    requires
        ranks.len() == hits.len(),
        0 <= i < hits.len(),
    ensures
        ({
            let sorted = sorting::stable_sorted::<ScoredHit>(paired(hits, ranks));
            exists|k: int|
                0 <= k < sorted.len() && (#[trigger] sorted[k]).hit == hits[i] && sorted[k].rank
                    == ranks[i]
        }),
{
    let all = paired(hits, ranks);
    let sorted = sorting::stable_sorted::<ScoredHit>(all);
    assert(all[i].hit == hits[i]);
    assert(all.contains(all[i]));
    sorting::law_sorting_keeps_elements::<ScoredHit>(all, all[i]);
    let k = choose|k: int| 0 <= k < sorted.len() && sorted[k] == all[i];
    assert(sorted[k].hit == hits[i]);
}

/// What a model ranked is taken over in its order, each document for the hit at its position and with
/// its new score; only a document that stands for no hit is passed over.
pub proof fn law_model_ranking_is_taken_over(
    hits: Seq<SearchHit>,
    ranked: Seq<RankedDocument>,
    n: int,
    i: int,
)
    requires
        0 <= n <= ranked.len(),
        forall|k: int| 0 <= k < n ==> (#[trigger] ranked[k]).index < hits.len(),
        0 <= i < n,
    ensures
        picked(hits, ranked, n).len() == n,
        picked(hits, ranked, n)[i] == (ranked[i].index as int, ranked[i].score),
    decreases n,
{
    lemma_picked_len(hits, ranked, n);
    if i < n - 1 {
        law_model_ranking_is_taken_over(hits, ranked, n - 1, i);
    } else {
        lemma_picked_len(hits, ranked, n - 1);
    }
}

proof fn lemma_picked_len(hits: Seq<SearchHit>, ranked: Seq<RankedDocument>, n: int)
    requires
        0 <= n <= ranked.len(),
        forall|k: int| 0 <= k < n ==> (#[trigger] ranked[k]).index < hits.len(),
    ensures
        picked(hits, ranked, n).len() == n,
    decreases n,
{
    if n > 0 {
        lemma_picked_len(hits, ranked, n - 1);
    }
}

/// A document that stands for no hit is passed over, and changes nothing of what is taken over before
/// it.
pub proof fn law_documents_without_a_hit_are_passed_over(
    hits: Seq<SearchHit>,
    ranked: Seq<RankedDocument>,
    n: int,
    i: int,
)
    requires
        0 < n <= ranked.len(),
    ensures
        ranked[n - 1].index >= hits.len() ==> picked(hits, ranked, n) == picked(
            hits,
            ranked,
            n - 1,
        ),
        0 <= i < picked(hits, ranked, n).len() ==> 0 <= picked(hits, ranked, n)[i].0 < hits.len(),
    decreases n,
{
    if n > 1 {
        law_documents_without_a_hit_are_passed_over(hits, ranked, n - 1, i);
    } else {
        assert(picked(hits, ranked, 0).len() == 0);
    }
}

} // verus!
