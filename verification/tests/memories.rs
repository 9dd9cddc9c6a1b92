use artesian::clock::Timestamp;
use artesian::compat::{
    CollectionCompat, CollectionCompatWire, Distance, VectorMemoryConfig,
    PINNED_FASTEMBED_DIMENSIONS, PINNED_FASTEMBED_MODEL,
};
use artesian::memory::{
    hit_line, stored_line, FindRequest, FindResponse, MemoryError, MemoryRecord, MemoryTier,
    SearchHit, SearchSource, StoreMemory, StoreRequest, StoreResponse,
};
use artesian::qdrant::{
    embedding_input, has_point, identity, node_id_for, point_id, record_for, stable_id, to_hex,
    QdrantBackendConfig,
};
use artesian::retrieval::{
    apply_ranking, needs_model, query_terms, term_counts, LocalLexicalReranker, RankedDocument,
    Reranker,
};
use artesian::scores::Score;
use artesian::text_map::TextMap;

fn score(value: f32) -> Score {
    Score::from_bits(value.to_bits())
}

fn record(node_id: &str, content: &str) -> MemoryRecord {
    MemoryRecord {
        id: format!("id:{node_id}"),
        node_id: node_id.to_string(),
        content: content.to_string(),
        tags: Vec::new(),
        metadata: TextMap::new(),
        tier: MemoryTier::L1Atom,
        created_at: Timestamp { secs: 0, nanos: 0 },
    }
}

fn ranks(reranker: &LocalLexicalReranker, query: &str, hits: &Vec<SearchHit>) -> Vec<Score> {
    reranker
        .lexical_counts(query, hits)
        .iter()
        .zip(hits)
        .map(|(counts, hit)| {
            let lexical: f32 = counts.iter().map(|count| *count as f32).sum();
            score(lexical + f32::from_bits(hit.score.bits) * 0.01)
        })
        .collect()
}

#[test]
fn lexical_reranker_promotes_exact_query_terms() {
    let hits = vec![
        SearchHit::keyword(record("node:b", "generic memory"), score(100.0)),
        SearchHit::keyword(record("node:a", "qdrant endpoint preflight"), score(1.0)),
    ];

    let ranks = ranks(&LocalLexicalReranker, "qdrant preflight", &hits);
    let reranked = LocalLexicalReranker.rerank(hits, &ranks, 1);

    assert_eq!(reranked.len(), 1);
    assert_eq!(reranked[0].record.node_id, "node:a");
}

#[test]
fn reranking_breaks_ties_by_node() {
    let hits = vec![
        SearchHit::keyword(record("node:b", "x"), score(0.0)),
        SearchHit::keyword(record("node:a", "x"), score(0.0)),
        SearchHit::keyword(record("node:c", "x x"), score(0.0)),
    ];
    let ranks = ranks(&LocalLexicalReranker, "X", &hits);
    let nodes: Vec<String> = LocalLexicalReranker
        .rerank(hits, &ranks, 5)
        .into_iter()
        .map(|hit| hit.record.node_id)
        .collect();
    assert_eq!(nodes, vec!["node:c", "node:a", "node:b"]);
}

#[test]
fn query_terms_are_lowered_words() {
    assert_eq!(query_terms("  Qdrant \t PREflight\n"), vec!["qdrant", "preflight"]);
    assert_eq!(query_terms("   ").len(), 0);
}

#[test]
fn query_terms_split_back() {
    let terms = query_terms("  Qdrant PREFLIGHT  qdrant");
    assert_eq!(terms, vec!["qdrant", "preflight", "qdrant"]);
    assert_eq!(query_terms(&terms.join(" ")), terms);
    assert_eq!(query_terms(" \u{3000}\t").len(), 0);
}

#[test]
fn terms_are_counted_without_overlap() {
    let terms = vec!["aa".to_string(), "b".to_string()];
    assert_eq!(term_counts("AAAAa bB", &terms), vec![2, 2]);
    assert_eq!("aaaaa".matches("aa").count(), 2);
}

#[test]
fn model_rankings_are_applied_in_order() {
    let hits = vec![
        SearchHit::keyword(record("a", ""), score(0.0)),
        SearchHit::keyword(record("b", ""), score(0.0)),
        SearchHit::keyword(record("c", ""), score(0.0)),
    ];
    assert!(needs_model(&hits, 2));
    assert!(!needs_model(&hits, 3));
    let ranked = vec![
        RankedDocument { index: 2, score: score(0.9) },
        RankedDocument { index: 7, score: score(0.8) },
        RankedDocument { index: 0, score: score(0.7) },
    ];
    assert_eq!(apply_ranking(&hits, &ranked, 2), vec![(2, score(0.9))]);
    assert_eq!(apply_ranking(&hits, &ranked, 3), vec![(2, score(0.9)), (0, score(0.7))]);
}

#[test]
fn qdrant_backend_pins_fastembed_model_and_dimensions() {
    let config = QdrantBackendConfig::new("http://localhost:6334", "general");

    assert_eq!(config.embedding_model, "intfloat/multilingual-e5-small");
    assert_eq!(config.dimensions, 384);
}

#[test]
fn qdrant_backends_begin_without_a_key() {
    let config = QdrantBackendConfig::new("http://localhost:6334", "general");
    assert_eq!(config.api_key, None);
    assert_eq!(config.url, "http://localhost:6334");
    assert_eq!(config.collection, "general");
    assert_eq!(config.embedding_model, PINNED_FASTEMBED_MODEL);
    assert_eq!(config.dimensions, PINNED_FASTEMBED_DIMENSIONS);
}

fn memory(content: &str) -> StoreMemory {
    StoreMemory {
        content: content.to_string(),
        tags: Vec::new(),
        metadata: TextMap::new(),
        tier: MemoryTier::L1Atom,
        node_id: None,
    }
}

#[test]
fn ids_are_digests_of_what_identifies_a_memory() {
    let mut full = memory("abc");
    full.tags = vec!["t1".to_string(), "t2".to_string()];
    full.metadata.insert("k2".to_string(), "v2".to_string());
    full.metadata.insert("k1".to_string(), "v1".to_string());
    full.node_id = Some("node:x".to_string());
    assert_eq!(identity(&full), b"abcL1Atomt1t2k1v1k2v2node:x".to_vec());
    assert_eq!(
        stable_id(&memory("abc")),
        "4c6cb4664512f0a67ae04fd7bc35381148247903d0d176c07eed0cad9e696eb0"
    );
    assert_ne!(stable_id(&memory("abc")), stable_id(&memory("abd")));
    assert_eq!(stable_id(&full), stable_id(&full));
}

#[test]
fn bytes_are_written_in_lower_case_hexadecimal() {
    assert_eq!(to_hex(&vec![0, 0x0f, 0xa0, 0xff]), "000fa0ff");
    assert_eq!(to_hex(&Vec::new()), "");
}

#[test]
fn points_have_the_groups_of_a_uuid() {
    let id = "0123456789abcdef0123456789abcdef0123456789abcdef0123456789abcdef";
    assert_eq!(point_id(id), "01234567-89ab-cdef-0123-456789abcdef");
    assert_eq!(point_id("abc"), "abc00000-0000-0000-0000-000000000000");
    assert_eq!(point_id(&stable_id(&memory("abc"))).len(), 36);
    assert_eq!(point_id(""), "00000000-0000-0000-0000-000000000000");
}

#[test]
fn points_follow_bytes_for_ids_beyond_ascii() {
    let id = "\u{e9}".repeat(16);
    let expected = {
        let hex = id.clone();
        format!("{}-{}-{}-{}-{}", &hex[0..8], &hex[8..12], &hex[12..16], &hex[16..20], &hex[20..32])
    };
    assert_eq!(point_id(&id), expected);
    assert!(has_point(&id));
    assert!(has_point("abc"));
    assert!(!has_point(&format!("1234567{}", "\u{e9}".repeat(20))));
    assert!(!has_point(&format!("{}\u{e9}", "1".repeat(31))));
}

#[test]
fn nodes_are_named_after_ids() {
    assert_eq!(node_id_for(None, "1"), "node:1");
    assert_eq!(node_id_for(Some("n".to_string()), "1"), "n");
    let stored = record_for(memory("text"), "1".to_string(), Timestamp { secs: 7, nanos: 8 });
    assert_eq!(stored.node_id, "node:1");
    assert_eq!(stored.content, "text");
    assert_eq!(stored.created_at, Timestamp { secs: 7, nanos: 8 });
}

#[test]
fn embedded_text_has_its_prefix() {
    assert_eq!(embedding_input("query", "text"), "query: text");
}

#[test]
fn find_requests_have_a_limit() {
    let query = FindRequest { query: "q".to_string(), limit: None, node_id: None }.into_query();
    assert_eq!(query.limit, 10);
    let query = FindRequest {
        query: "q".to_string(),
        limit: Some(3),
        node_id: Some("n".to_string()),
    }
    .into_query();
    assert_eq!(query.limit, 3);
    assert_eq!(query.node_id.as_deref(), Some("n"));
    assert_eq!(query.text, "q");
}

#[test]
fn responses_carry_hits_and_records() {
    let mut stored = record("node:a", "text");
    stored.tags = vec!["t".to_string()];
    let line = stored_line(&stored);
    assert_eq!(line, "stored memory id=id:node:a node_id=node:a");
    assert_eq!(
        StoreResponse::from_record(&stored),
        StoreResponse { id: "id:node:a".to_string(), node_id: "node:a".to_string() }
    );
    let hit = SearchHit::keyword(stored, score(0.5));
    assert_eq!(hit.source, SearchSource::Keyword);
    assert_eq!(hit_line(&hit, "0.5000"), "0.5000\tid:node:a\tnode:a\ttext");
    let response = FindResponse::from_hits(vec![hit]);
    assert_eq!(response.hits.len(), 1);
    assert_eq!(response.hits[0].tags, vec!["t"]);
    assert_eq!(response.hits[0].score, score(0.5));
}

#[test]
fn store_requests_become_atoms() {
    let stored = StoreRequest { content: "c".to_string(), tags: None, node_id: None }.into_memory();
    assert_eq!(stored.tier, MemoryTier::L1Atom);
    assert_eq!(stored.tags.len(), 0);
    assert_eq!(stored.metadata.len(), 0);
    assert_eq!(MemoryTier::L0Raw.label(), "L0Raw");
    assert_eq!(MemoryTier::L1Atom.label(), "L1Atom");
}

#[test]
fn collections_are_compatible_with_themselves() {
    let current = CollectionCompat::current();
    assert!(current.validate_compatible(&CollectionCompat::default()).is_ok());
    let config = VectorMemoryConfig {
        embedding_model: "other".to_string(),
        dimensions: 3,
        distance: Distance::Cosine,
    };
    let other = CollectionCompat::from_config(&config);
    assert_eq!(other.embedding_model, "other");
    assert!(matches!(
        current.validate_compatible(&other),
        Err(MemoryError::CompatMismatch { collection_dimensions: 384, configured_dimensions: 3, .. })
    ));
}

#[test]
fn collections_read_older_records() {
    let wire = |headwater: Option<&str>, okf: Option<&str>| CollectionCompatWire {
        artesian_version: "0.5.0".to_string(),
        headwater_version: headwater.map(str::to_string),
        okf_version: okf.map(str::to_string),
        embedding_model: "m".to_string(),
        dimensions: 1,
        distance: Distance::Dot,
    };
    let (new, warned) = CollectionCompat::from_wire(wire(Some("2"), Some("1")));
    assert_eq!(new.headwater_version, "2");
    assert!(warned);
    let (plain, warned) = CollectionCompat::from_wire(wire(Some("2"), None));
    assert_eq!(plain.headwater_version, "2");
    assert!(!warned);
    let (oldest, _) = CollectionCompat::from_wire(wire(None, None));
    assert_eq!(oldest.headwater_version, "1");
    let (old, warned) = CollectionCompat::from_wire(wire(None, Some("1")));
    assert_eq!(old.headwater_version, "1");
    assert!(warned);
}

#[test]
fn reranking_keeps_as_many_hits_as_it_may() {
    let hits = || {
        vec![
            SearchHit::keyword(record("a", "wells"), score(1.0)),
            SearchHit::keyword(record("b", "wells wells"), score(1.0)),
            SearchHit::keyword(record("c", "springs"), score(1.0)),
        ]
    };
    let reranker = LocalLexicalReranker;
    for (limit, nodes) in [(0usize, vec![]), (2, vec!["b", "a"]), (9, vec!["b", "a", "c"])] {
        let hits = hits();
        let ranks = ranks(&reranker, "wells", &hits);
        let best = reranker.rerank(hits, &ranks, limit);
        let found: Vec<&str> = best.iter().map(|hit| hit.record.node_id.as_str()).collect();
        assert_eq!(found, nodes);
    }
}
