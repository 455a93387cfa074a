use rsfts::api::{ApiResponse, BatchInsertRequest, DocumentResponse, InsertDocumentRequest, SearchRequest};
use rsfts::{Document, SearchMode};

fn request(id: &str, url: Option<&str>) -> InsertDocumentRequest {
    InsertDocumentRequest {
        id: id.to_string(),
        title: "Title".to_string(),
        content: "Content".to_string(),
        url: url.map(|u| u.to_string()),
    }
}

fn search(mode: Option<&str>) -> SearchRequest {
    SearchRequest { query: "q".to_string(), mode: mode.map(|m| m.to_string()), ranked: None, limit: None, offset: None }
}

#[test]
fn insert_request_becomes_a_document() {
    let doc = request("7", Some("https://example.org")).into_document();
    assert_eq!(doc.id, "7");
    assert_eq!(doc.title, "Title");
    assert_eq!(doc.content, "Content");
    assert_eq!(doc.url.as_deref(), Some("https://example.org"));
    assert!(doc.metadata.is_empty());
    assert!(request("8", None).into_document().url.is_none());
}

#[test]
fn insert_request_under_another_id() {
    let doc = request("7", None).into_document_with_id(Some("path-id".to_string()));
    assert_eq!(doc.id, "path-id");
    assert_eq!(doc.title, "Title");
    let same = request("7", None).into_document_with_id(None);
    assert_eq!(same.id, "7");
}

#[test]
fn batch_request_becomes_documents_in_order() {
    let batch = BatchInsertRequest { documents: vec![request("a", None), request("b", Some("u")), request("c", None)] };
    let docs = batch.into_documents();
    let ids: Vec<&str> = docs.iter().map(|d| d.id.as_str()).collect();
    assert_eq!(ids, vec!["a", "b", "c"]);
    assert_eq!(docs[1].url.as_deref(), Some("u"));
    assert!(BatchInsertRequest { documents: Vec::new() }.into_documents().is_empty());
}

#[test]
fn search_request_defaults() {
    let options = search(None).options();
    assert!(matches!(options.mode, SearchMode::And));
    assert!(options.use_ranking);
    assert_eq!(options.limit, Some(10));
    assert_eq!(options.offset, 0);
}

#[test]
fn search_request_mode_names() {
    assert!(matches!(search(Some("or")).options().mode, SearchMode::Or));
    assert!(matches!(search(Some("and")).options().mode, SearchMode::And));
    assert!(matches!(search(Some("OR")).options().mode, SearchMode::And));
    assert!(matches!(search(Some("")).options().mode, SearchMode::And));
    assert!(matches!(search(Some("xor")).options().mode, SearchMode::And));
}

#[test]
fn search_request_given_values() {
    let request = SearchRequest {
        query: "q".to_string(),
        mode: Some("or".to_string()),
        ranked: Some(false),
        limit: Some(3),
        offset: Some(6),
    };
    let options = request.options();
    assert!(matches!(options.mode, SearchMode::Or));
    assert!(!options.use_ranking);
    assert_eq!(options.limit, Some(3));
    assert_eq!(options.offset, 6);
}

#[test]
fn document_response_from_document() {
    let doc = Document::new("1".to_string(), "T".to_string(), "C".to_string())
        .with_url("u".to_string())
        .with_metadata("k".to_string(), "v".to_string());
    let response = DocumentResponse::from(doc);
    assert_eq!(response.id, "1");
    assert_eq!(response.title, "T");
    assert_eq!(response.content, "C");
    assert_eq!(response.url.as_deref(), Some("u"));
}

#[test]
fn api_responses() {
    let ok = ApiResponse::success(5);
    assert!(ok.success);
    assert_eq!(ok.data, Some(5));
    assert!(ok.message.is_none());

    let failed: ApiResponse<u8> = ApiResponse::error_msg("not found".to_string());
    assert!(!failed.success);
    assert!(failed.data.is_none());
    assert_eq!(failed.message.as_deref(), Some("not found"));

    let error = ApiResponse::<u8>::error("broken".to_string());
    assert!(!error.success);
    assert!(error.data.is_none());
    assert_eq!(error.message.as_deref(), Some("broken"));
}
