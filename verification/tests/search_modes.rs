//! The three retrieval strategies end to end, with hand-quantized
//! embeddings standing in for the external embedding provider.

use rag_enricher::enricher::fuse_candidates;
use rag_enricher::logistic::squash;
use rag_enricher::{cosine_similarity, RAGEnricher, SearchMode};

#[test]
fn test_rag_enricher_initialization() {
    let rag = RAGEnricher::new();
    assert!(rag.list_collections().unwrap().is_empty());
}

#[test]
fn test_search() {
    let mut rag = RAGEnricher::new();

    rag.create_collection("test", None).unwrap();
    let e1: [i64; 3] = [1000, 0, 0];
    let e2: [i64; 3] = [0, 1000, 0];
    rag.add_document("永代供養とは、お墓の管理を寺院に委託する供養形態です。", "test", &e1, None)
        .unwrap();
    rag.add_document("納骨堂には、ロッカー式、仏壇式、自動搬送式などがあります。", "test", &e2, None)
        .unwrap();

    let q: [i64; 3] = [999, 40, 0];
    let results = rag
        .search("永代供養について", &q, Some("test"), None, 5, 0, SearchMode::Semantic, None)
        .unwrap();

    assert!(!results.is_empty());
    assert!(results[0].score > 0);
}

#[test]
fn test_enrich() {
    let mut rag = RAGEnricher::new();

    rag.create_collection("test", None).unwrap();
    let e1: [i64; 3] = [1000, 0, 0];
    rag.add_document("永代供養とは、お墓の管理を寺院に委託する供養形態です。", "test", &e1, None)
        .unwrap();

    let q: [i64; 3] = [999, 40, 0];
    let result = rag
        .enrich("永代供養について", &q, Some("test"), None, 3, 0, SearchMode::Semantic, None)
        .unwrap();

    assert_eq!(result.question, "永代供養について");
    assert!(!result.context.is_empty());
    assert!(!result.sources.is_empty());
}

#[test]
fn test_all_search_modes_english() {
    let mut rag = RAGEnricher::new();
    rag.create_collection("docs", Some("Documents")).unwrap();

    let docs = vec![
        "Machine learning is a subset of artificial intelligence that focuses on algorithms.",
        "The cost of machine learning projects ranges from 10k to 150k dollars.",
        "Deep learning uses neural networks with multiple layers for complex pattern recognition.",
    ];
    let embs: Vec<[i64; 3]> = vec![[1000, 100, 0], [800, 600, 0], [0, 100, 1000]];
    for (doc, emb) in docs.iter().zip(embs.iter()) {
        rag.add_document(doc, "docs", emb, None).unwrap();
    }
    let q: [i64; 3] = [707, 707, 0];

    // 1. Semantic search: non-empty, in non-increasing score order.
    let results = rag
        .search("machine learning cost", &q, Some("docs"), None, 3, 0, SearchMode::Semantic, None)
        .unwrap();
    assert!(!results.is_empty());
    for w in results.windows(2) {
        assert!(w[0].score >= w[1].score);
    }

    // 2. Keyword search: exactly the document literally containing "cost".
    let results = rag
        .search("cost", &q, Some("docs"), None, 3, 0, SearchMode::Keyword, None)
        .unwrap();
    assert!(!results.is_empty(), "Keyword search should return results");
    assert_eq!(results.len(), 1);
    assert!(results[0].content.contains("cost"));

    // 3. Hybrid search (0.7, 0.3): the top score is exactly the weighted
    // combination of that document's semantic and keyword scores.
    let results = rag
        .search(
            "machine learning cost",
            &q,
            Some("docs"),
            None,
            3,
            0,
            SearchMode::Hybrid,
            Some((700, 300)),
        )
        .unwrap();
    assert!(!results.is_empty());
    for w in results.windows(2) {
        assert!(w[0].score >= w[1].score);
    }
    let top = &results[0];
    let top_doc = rag.get_document(top.document_id).unwrap();
    let idx = docs.iter().position(|d| *d == top_doc.content).unwrap();
    let sem = cosine_similarity(&q, &embs[idx]);
    // Only the cost document token-matches the whole query; its raw rank
    // counts one occurrence of each of the three query tokens.
    let kw = if idx == 1 { squash(-3000) } else { 0 };
    assert_eq!(top.score, (700 * sem + 300 * kw) / 1000);
}

#[test]
fn keyword_search_falls_back_to_substring_scan() {
    let mut rag = RAGEnricher::new();
    rag.create_collection("test", None).unwrap();
    let e1: [i64; 2] = [1000, 0];
    let e2: [i64; 2] = [0, 1000];
    rag.add_document("永代供養とは、お墓の管理や供養を寺院が永代にわたって行ってくれる供養形態です。", "test", &e1, None).unwrap();
    rag.add_document("永代供養の費用は、一般的に10万円から150万円程度です。", "test", &e2, None).unwrap();

    // The indexed tier cannot tokenize this script into the query's run of
    // characters, so the substring scan must find the literal match.
    let results = rag.keyword_search("永代供養の費用", None, 10).unwrap();
    assert_eq!(results.len(), 1);
    assert!(results[0].content.contains("費用"));
    // The fallback's fixed raw score of 1.0 squashes to 0.524.
    assert_eq!(results[0].score, squash(1000));
    assert_eq!(squash(1000), 524);
}

#[test]
fn semantic_search_respects_the_threshold() {
    let mut rag = RAGEnricher::new();
    rag.create_collection("docs", None).unwrap();
    let close: [i64; 2] = [1000, 10];
    let far: [i64; 2] = [10, 1000];
    rag.add_document("close document", "docs", &close, None).unwrap();
    rag.add_document("far document", "docs", &far, None).unwrap();
    let q: [i64; 2] = [1000, 0];

    let all = rag.semantic_search(&q, None, 10, 0).unwrap();
    assert_eq!(all.len(), 2);
    for r in &all {
        assert!(r.score >= 0);
    }

    let strict = rag.semantic_search(&q, None, 10, 900).unwrap();
    assert_eq!(strict.len(), 1);
    assert!(strict[0].score >= 900);
    assert_eq!(strict[0].content, "close document");
}

#[test]
fn semantic_search_truncates_to_top_k() {
    let mut rag = RAGEnricher::new();
    rag.create_collection("docs", None).unwrap();
    for i in 0..5 {
        let emb: [i64; 2] = [1000, i * 10];
        rag.add_document("one of many", "docs", &emb, None).unwrap();
    }
    let q: [i64; 2] = [1000, 0];
    assert_eq!(rag.semantic_search(&q, None, 3, 0).unwrap().len(), 3);
    assert_eq!(rag.semantic_search(&q, None, 10, 0).unwrap().len(), 5);
}

#[test]
fn hybrid_scores_combine_both_methods_exactly() {
    // Candidate lists built directly, so the fused arithmetic is pinned.
    let sem = vec![
        rag_enricher::SearchResult::new(1, "both".to_string(), 900, None, "docs".to_string()),
        rag_enricher::SearchResult::new(2, "semantic only".to_string(), 800, None, "docs".to_string()),
    ];
    let kwr = vec![
        rag_enricher::SearchResult::new(1, "both".to_string(), 500, None, "docs".to_string()),
        rag_enricher::SearchResult::new(3, "keyword only".to_string(), 400, None, "docs".to_string()),
    ];
    let fused = fuse_candidates(&sem, &kwr, 700, 300);
    assert_eq!(fused.len(), 3);
    let score_of = |id: i64| fused.iter().find(|r| r.document_id == id).unwrap().score;
    // In both sets: 0.7 * semantic + 0.3 * keyword, exactly.
    assert_eq!(score_of(1), (700 * 900 + 300 * 500) / 1000);
    // Semantic only: the keyword contribution is zero.
    assert_eq!(score_of(2), (700 * 800) / 1000);
    // Keyword only: the semantic contribution is zero.
    assert_eq!(score_of(3), (300 * 400) / 1000);
}

#[test]
fn unknown_collection_fails_before_scoring() {
    let rag = RAGEnricher::new();
    let q: [i64; 2] = [1000, 0];
    let err = rag
        .search("anything", &q, Some("absent"), None, 5, 0, SearchMode::Semantic, None)
        .unwrap_err();
    assert!(matches!(err, rag_enricher::Error::NotFound(_)));
}

#[test]
fn search_filters_by_collection_list() {
    let mut rag = RAGEnricher::new();
    rag.create_collection("a", None).unwrap();
    rag.create_collection("b", None).unwrap();
    let e: [i64; 2] = [1000, 0];
    rag.add_document("shared term alpha", "a", &e, None).unwrap();
    rag.add_document("shared term beta", "b", &e, None).unwrap();
    let names = vec!["b".to_string()];
    let q: [i64; 2] = [1000, 0];
    let results = rag
        .search("shared", &q, None, Some(&names), 10, 0, SearchMode::Keyword, None)
        .unwrap();
    assert_eq!(results.len(), 1);
    assert_eq!(results[0].collection_name, "b");
}

#[test]
fn keyword_results_follow_the_squashed_scale() {
    let mut rag = RAGEnricher::new();
    rag.create_collection("docs", None).unwrap();
    let e: [i64; 2] = [1000, 0];
    let many = rag.add_document("cost cost cost", "docs", &e, None).unwrap();
    let once = rag.add_document("one cost only", "docs", &e, None).unwrap();

    let results = rag.keyword_search("cost", None, 10).unwrap();
    assert_eq!(results.len(), 2);
    // The squash is increasing in the raw score, so the ordering follows
    // the squashed scale: fewer occurrences squash higher.
    assert_eq!(results[0].document_id, once);
    assert_eq!(results[0].score, squash(-1000));
    assert_eq!(results[1].document_id, many);
    assert_eq!(results[1].score, squash(-3000));
    for w in results.windows(2) {
        assert!(w[0].score >= w[1].score);
    }
}

#[test]
fn semantic_scores_are_the_fixed_point_cosine() {
    let mut rag = RAGEnricher::new();
    rag.create_collection("docs", None).unwrap();
    let emb: [i64; 2] = [3, 4];
    rag.add_document("a known angle", "docs", &emb, None).unwrap();
    let q: [i64; 2] = [4, 3];
    let results = rag.semantic_search(&q, None, 10, 0).unwrap();
    assert_eq!(results.len(), 1);
    assert_eq!(results[0].score, cosine_similarity(&q, &emb));
    assert_eq!(results[0].score, 960);
}

#[test]
fn truncation_keeps_the_best_scoring_candidates() {
    let mut rag = RAGEnricher::new();
    rag.create_collection("docs", None).unwrap();
    // Increasingly misaligned embeddings: earlier documents score higher.
    let best = rag.add_document("rank one", "docs", &[1000i64, 0], None).unwrap();
    let second = rag.add_document("rank two", "docs", &[1000i64, 200], None).unwrap();
    rag.add_document("rank three", "docs", &[1000i64, 600], None).unwrap();
    rag.add_document("rank four", "docs", &[0i64, 1000], None).unwrap();
    let q: [i64; 2] = [1000, 0];
    let top2 = rag.semantic_search(&q, None, 2, 0).unwrap();
    assert_eq!(top2.len(), 2);
    assert_eq!(top2[0].document_id, best);
    assert_eq!(top2[1].document_id, second);
}

#[test]
fn equal_scores_keep_candidate_order() {
    let mut rag = RAGEnricher::new();
    rag.create_collection("docs", None).unwrap();
    // Four documents with pairwise equal similarities to the query.
    let a = rag.add_document("tied first", "docs", &[500i64, 500], None).unwrap();
    let b = rag.add_document("tied second", "docs", &[1000i64, 1000], None).unwrap();
    let c = rag.add_document("tied third", "docs", &[250i64, 250], None).unwrap();
    let q: [i64; 2] = [700, 700];
    let results = rag.semantic_search(&q, None, 10, 0).unwrap();
    let ids: Vec<i64> = results.iter().map(|r| r.document_id).collect();
    // All scores equal, so the candidate (insertion) order is kept.
    assert!(results.windows(2).all(|w| w[0].score == w[1].score));
    assert_eq!(ids, vec![a, b, c]);
}
