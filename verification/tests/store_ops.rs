//! Collection and document lifecycle: creation, lookup, cascade deletion,
//! and the metadata round trip.

use rag_enricher::{Error, RAGEnricher, SearchMode};

const EMB_A: [i64; 3] = [1000, 0, 0];

#[test]
fn test_collection_operations() {
    let mut rag = RAGEnricher::new();

    // Create collection
    let id = rag.create_collection("test", Some("Test collection")).unwrap();
    assert!(id > 0);

    // Get collection
    let coll = rag.get_collection("test").unwrap();
    assert_eq!(coll.name, "test");

    // List collections
    let collections = rag.list_collections().unwrap();
    assert_eq!(collections.len(), 1);

    // Delete collection
    let deleted = rag.delete_collection("test").unwrap();
    assert!(deleted);
}

#[test]
fn test_document_operations() {
    let mut rag = RAGEnricher::new();

    rag.create_collection("test", None).unwrap();

    // Add document
    let id = rag.add_document("Hello, world!", "test", &EMB_A, None).unwrap();
    assert!(id > 0);

    // Get document
    let doc = rag.get_document(id).unwrap();
    assert_eq!(doc.content, "Hello, world!");

    // List documents
    let docs = rag.list_documents(Some("test"), 10, 0).unwrap();
    assert_eq!(docs.len(), 1);

    // Delete document
    let deleted = rag.delete_document(id).unwrap();
    assert!(deleted);
}

#[test]
fn duplicate_collection_name_is_rejected() {
    let mut rag = RAGEnricher::new();
    rag.create_collection("docs", None).unwrap();
    let err = rag.create_collection("docs", None).unwrap_err();
    assert!(matches!(err, Error::AlreadyExists(_)));
}

#[test]
fn missing_collection_is_not_found() {
    let mut rag = RAGEnricher::new();
    assert!(matches!(rag.get_collection("absent").unwrap_err(), Error::NotFound(_)));
    assert!(matches!(
        rag.add_document("text", "absent", &EMB_A, None).unwrap_err(),
        Error::NotFound(_)
    ));
    assert!(matches!(rag.get_document(42).unwrap_err(), Error::NotFound(_)));
}

#[test]
fn malformed_metadata_is_invalid_input() {
    let mut rag = RAGEnricher::new();
    rag.create_collection("docs", None).unwrap();
    let err = rag.add_document("text", "docs", &EMB_A, Some("{not json")).unwrap_err();
    assert!(matches!(err, Error::InvalidInput(_)));
    // Nothing was stored.
    assert_eq!(rag.list_documents(Some("docs"), 10, 0).unwrap().len(), 0);
}

#[test]
fn metadata_round_trip_is_exact() {
    let mut rag = RAGEnricher::new();
    rag.create_collection("docs", None).unwrap();
    let meta = "{\"source\":\"manual\",\"page\":3}";
    let id = rag.add_document("Round trip content.", "docs", &EMB_A, Some(meta)).unwrap();
    let doc = rag.get_document(id).unwrap();
    assert_eq!(doc.content, "Round trip content.");
    let stored = doc.metadata.unwrap();
    assert_eq!(stored, meta);
    // Deep-equal on the structured form as well.
    let a: serde_json::Value = serde_json::from_str(&stored).unwrap();
    let b: serde_json::Value = serde_json::from_str(meta).unwrap();
    assert_eq!(a, b);
}

#[test]
fn update_with_nothing_supplied_is_a_no_op() {
    let mut rag = RAGEnricher::new();
    rag.create_collection("docs", None).unwrap();
    let id = rag.add_document("original", "docs", &EMB_A, None).unwrap();
    assert_eq!(rag.update_document(id, None, None, None).unwrap(), false);
    assert_eq!(rag.get_document(id).unwrap().content, "original");
}

#[test]
fn update_changes_content_and_keeps_identity() {
    let mut rag = RAGEnricher::new();
    rag.create_collection("docs", None).unwrap();
    let id = rag.add_document("before", "docs", &EMB_A, None).unwrap();
    let newemb: [i64; 3] = [0, 1000, 0];
    assert_eq!(rag.update_document(id, Some("after"), Some(&newemb), None).unwrap(), true);
    let doc = rag.get_document(id).unwrap();
    assert_eq!(doc.content, "after");
    assert_eq!(doc.id, id);
    // The lexical index follows the new content.
    let hits = rag.keyword_search("after", None, 10).unwrap();
    assert_eq!(hits.len(), 1);
    assert_eq!(hits[0].document_id, id);
    assert!(rag.keyword_search("before", None, 10).unwrap().is_empty());
}

#[test]
fn deleting_a_collection_cascades() {
    let mut rag = RAGEnricher::new();
    rag.create_collection("keep", None).unwrap();
    rag.create_collection("drop", None).unwrap();
    let kept = rag.add_document("alpaca stays", "keep", &EMB_A, None).unwrap();
    rag.add_document("zebra goes away", "drop", &EMB_A, None).unwrap();
    rag.add_document("zebra also goes", "drop", &EMB_A, None).unwrap();

    assert!(rag.delete_collection("drop").unwrap());

    // The documents are gone...
    assert_eq!(rag.list_documents(None, 100, 0).unwrap().len(), 1);
    // ...and so are their lexical index entries: a search finds nothing.
    assert!(rag.keyword_search("zebra", None, 10).unwrap().is_empty());
    let results = rag
        .search("zebra", &EMB_A, None, None, 10, 0, SearchMode::Keyword, None)
        .unwrap();
    assert!(results.is_empty());
    // The untouched collection still answers.
    let hits = rag.keyword_search("alpaca", None, 10).unwrap();
    assert_eq!(hits.len(), 1);
    assert_eq!(hits[0].document_id, kept);
    // Deleting again reports that nothing was deleted.
    assert_eq!(rag.delete_collection("drop").unwrap(), false);
}

#[test]
fn list_documents_is_newest_first_with_window() {
    let mut rag = RAGEnricher::new();
    rag.create_collection("docs", None).unwrap();
    let a = rag.add_document("first", "docs", &EMB_A, None).unwrap();
    let b = rag.add_document("second", "docs", &EMB_A, None).unwrap();
    let c = rag.add_document("third", "docs", &EMB_A, None).unwrap();
    let all = rag.list_documents(Some("docs"), 10, 0).unwrap();
    let ids: Vec<i64> = all.iter().map(|d| d.id).collect();
    assert_eq!(ids, vec![c, b, a]);
    let window = rag.list_documents(Some("docs"), 1, 1).unwrap();
    assert_eq!(window.len(), 1);
    assert_eq!(window[0].id, b);
}

#[test]
fn document_count_is_live() {
    let mut rag = RAGEnricher::new();
    rag.create_collection("docs", None).unwrap();
    assert_eq!(rag.get_collection("docs").unwrap().document_count, 0);
    let id = rag.add_document("one", "docs", &EMB_A, None).unwrap();
    assert_eq!(rag.get_collection("docs").unwrap().document_count, 1);
    rag.delete_document(id).unwrap();
    assert_eq!(rag.get_collection("docs").unwrap().document_count, 0);
}
