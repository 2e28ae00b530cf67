//! Rendering: decimal formatting, the logistic squash, context building,
//! mode parsing, the response envelope, and the import/export halves.

use rag_enricher::api::ApiResponse;
use rag_enricher::enricher::RAGEnricher;
use rag_enricher::fmt::{fmt_milli, fmt_u64};
use rag_enricher::logistic::squash;
use rag_enricher::search::{EnrichResult, SearchMode, SearchResult};
use rag_enricher::Error;

#[test]
fn decimal_rendering_is_exact() {
    assert_eq!(fmt_u64(0), "0");
    assert_eq!(fmt_u64(7), "7");
    assert_eq!(fmt_u64(10), "10");
    assert_eq!(fmt_u64(9876543210), "9876543210");
}

#[test]
fn milli_scores_print_with_three_decimals() {
    assert_eq!(fmt_milli(876), "0.876");
    assert_eq!(fmt_milli(754), "0.754");
    assert_eq!(fmt_milli(0), "0.000");
    assert_eq!(fmt_milli(1000), "1.000");
    assert_eq!(fmt_milli(2000), "2.000");
    assert_eq!(fmt_milli(-500), "-0.500");
    assert_eq!(fmt_milli(35), "0.035");
    assert_eq!(fmt_milli(5), "0.005");
}

#[test]
fn squash_maps_raw_scores_onto_the_unit_interval() {
    // The fallback tier's fixed raw 1.0.
    assert_eq!(squash(1000), 524);
    // A raw score of zero lands exactly in the middle.
    assert_eq!(squash(0), 500);
    // More negative raw ranks squash lower.
    assert!(squash(-1000) < squash(0));
    assert_eq!(squash(-1000), 475);
    assert_eq!(squash(-3000), 425);
    // Saturation: far-out raw scores stay inside [0, 1000).
    assert_eq!(squash(i64::MIN), 0);
    assert_eq!(squash(i64::MAX), 999);
}

#[test]
fn enrich_formatting_two_sources() {
    let sources = vec![
        SearchResult::new(1, "Content one.".to_string(), 876, None, "docs".to_string()),
        SearchResult::new(2, "Content two.".to_string(), 754, None, "docs".to_string()),
    ];
    let er = EnrichResult::new("what does it cost?".to_string(), sources);
    let expected = "[Source 1] (Score: 0.876, Collection: docs)\nContent one.\n\n[Source 2] (Score: 0.754, Collection: docs)\nContent two.";
    assert_eq!(er.context, expected);
    assert_eq!(er.question, "what does it cost?");
    assert_eq!(er.sources.len(), 2);
}

#[test]
fn enrich_formatting_empty_sources() {
    let er = EnrichResult::new("anything".to_string(), vec![]);
    assert_eq!(er.context, "");
}

#[test]
fn search_mode_parsing_rejects_unknown_tags() {
    assert!(matches!(SearchMode::parse("semantic"), Ok(SearchMode::Semantic)));
    assert!(matches!(SearchMode::parse("keyword"), Ok(SearchMode::Keyword)));
    assert!(matches!(SearchMode::parse("hybrid"), Ok(SearchMode::Hybrid)));
    assert!(matches!(SearchMode::parse("fuzzy"), Err(Error::InvalidInput(_))));
    assert!(matches!(SearchMode::parse(""), Err(Error::InvalidInput(_))));
    assert!(matches!(SearchMode::default(), SearchMode::Semantic));
}

#[test]
fn api_response_envelopes() {
    let ok: ApiResponse<i64> = ApiResponse::success(7);
    assert!(ok.success);
    assert_eq!(ok.data, Some(7));
    assert!(ok.error.is_none());
    let err: ApiResponse<i64> = ApiResponse::error("went wrong".to_string());
    assert!(!err.success);
    assert!(err.data.is_none());
    assert_eq!(err.error, Some("went wrong".to_string()));
}

#[test]
fn error_messages_carry_through() {
    let e = Error::StorageError("disk on fire".to_string());
    assert_eq!(e.message(), "disk on fire");
    let e = Error::EmbeddingError("backend failure".to_string());
    assert_eq!(e.message(), "backend failure");
}

#[test]
fn prepare_import_extracts_contents_and_metadata() {
    let headers = vec!["title".to_string(), "content".to_string(), "author".to_string()];
    let rows = vec![
        vec!["One".to_string(), "First body".to_string(), "Ada".to_string()],
        vec!["Two".to_string(), "Second body".to_string(), "Grace".to_string()],
        vec!["short row".to_string()],
    ];
    let meta_cols = vec!["author".to_string()];
    let (contents, metas) =
        RAGEnricher::prepare_import(&headers, &rows, "content", Some(&meta_cols)).unwrap();
    assert_eq!(contents, vec!["First body".to_string(), "Second body".to_string()]);
    assert_eq!(metas.len(), 2);
    let m0: serde_json::Value = serde_json::from_str(metas[0].as_ref().unwrap()).unwrap();
    assert_eq!(m0["author"], "Ada");
    let m1: serde_json::Value = serde_json::from_str(metas[1].as_ref().unwrap()).unwrap();
    assert_eq!(m1["author"], "Grace");
}

#[test]
fn prepare_import_requires_the_content_column() {
    let headers = vec!["title".to_string()];
    let rows: Vec<Vec<String>> = vec![];
    let err = RAGEnricher::prepare_import(&headers, &rows, "content", None).unwrap_err();
    assert!(matches!(err, Error::InvalidInput(_)));
}

#[test]
fn export_records_lists_documents_with_header() {
    let mut rag = RAGEnricher::new();
    rag.create_collection("docs", None).unwrap();
    let emb: [i64; 2] = [1000, 0];
    let id = rag.add_document("exported body", "docs", &emb, Some("{\"k\":1}")).unwrap();
    let rows = rag.export_records(Some("docs")).unwrap();
    assert_eq!(rows.len(), 2);
    assert_eq!(rows[0], vec!["id", "collection", "content", "metadata", "created_at"]);
    assert_eq!(rows[1][0], id.to_string());
    assert_eq!(rows[1][1], "docs");
    assert_eq!(rows[1][2], "exported body");
    assert_eq!(rows[1][3], "{\"k\":1}");
}

#[test]
fn batch_addition_keeps_the_inserted_prefix() {
    let mut rag = RAGEnricher::new();
    rag.create_collection("docs", None).unwrap();
    let documents = vec!["first".to_string(), "second".to_string(), "third".to_string()];
    let embeddings = vec![vec![1000i64, 0], vec![0i64, 1000], vec![500i64, 500]];
    let metas = vec!["{}".to_string(), "{broken".to_string(), "{}".to_string()];
    let err = rag.add_documents(&documents, "docs", &embeddings, Some(&metas)).unwrap_err();
    assert!(matches!(err, Error::InvalidInput(_)));
    // The document before the failing one remains inserted.
    assert_eq!(rag.list_documents(Some("docs"), 10, 0).unwrap().len(), 1);

    // A clean batch adds everything.
    let metas = vec!["{}".to_string(), "{}".to_string(), "{}".to_string()];
    let ids = rag.add_documents(&documents, "docs", &embeddings, Some(&metas)).unwrap();
    assert_eq!(ids.len(), 3);
    assert_eq!(rag.list_documents(Some("docs"), 10, 0).unwrap().len(), 4);
}
