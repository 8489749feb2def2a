use document_search::documents::Document;
use document_search::service::{
    search_request, ApiError, AppState, DocumentInput, DEFAULT_LIMIT,
};

#[test]
fn create_document() {
    let mut state = AppState::default();

    let created = state.create_document(
        "7c9e6679-7425-40de-944b-e07fc1f90ae7".to_string(),
        DocumentInput { text: "hello world".to_string() },
    );
    assert_eq!(created.id, "7c9e6679-7425-40de-944b-e07fc1f90ae7");
    assert_eq!(created.text, "hello world");

    let documents: Vec<_> = state.document_store.iter().collect();
    assert_eq!(documents.len(), 1);
    assert_eq!(documents[0].1.text, "hello world");
    assert_eq!(documents[0].1.word_count, 2);
}

#[test]
fn get_document() {
    let mut state = AppState::default();
    let test_doc = Document::new("test-id".to_string(), "test content".to_string());
    state.document_store.insert(test_doc.clone());

    let found = state.get_document("test-id");
    assert!(found.is_ok());
    let found = found.unwrap();
    assert_eq!(found.id, "test-id");
    assert_eq!(found.text, "test content");
    assert_eq!(found.word_count, 2);
}

#[test]
fn get_nonexistent_document() {
    let state = AppState::default();
    let found = state.get_document("nonexistent");
    assert_eq!(found.err(), Some(ApiError::NotFound));
    assert_eq!(ApiError::NotFound.status(), 404);
}

#[test]
fn update_document() {
    let mut state = AppState::default();
    let test_doc = Document::new("test-id".to_string(), "test content".to_string());
    state.document_store.insert(test_doc);

    state.update_document(
        "test-id".to_string(),
        DocumentInput { text: "updated content".to_string() },
    );

    let updated_doc = state.document_store.get("test-id").unwrap();
    assert_eq!(updated_doc.text, "updated content");
    assert_eq!(updated_doc.id, "test-id");
    assert_eq!(updated_doc.word_count, 2);
}

#[test]
fn get_all_documents() {
    let mut state = AppState::default();
    state.document_store.insert(Document::new("doc1".to_string(), "first document".to_string()));
    state.document_store.insert(Document::new("doc2".to_string(), "second document".to_string()));

    let documents = state.get_all_documents();
    assert_eq!(documents.len(), 2);
    assert_eq!(documents[0].id, "doc1");
    assert_eq!(documents[1].id, "doc2");
}

#[test]
fn created_documents_are_stored_under_the_given_ids() {
    let mut state = AppState::default();
    let first = state.create_document("id-1".to_string(), DocumentInput { text: "one".to_string() });
    let second =
        state.create_document("id-2".to_string(), DocumentInput { text: "two words".to_string() });
    assert_eq!(first.id, "id-1");
    assert_eq!(first.word_count, 1);
    assert_eq!(second.id, "id-2");
    assert_eq!(second.word_count, 2);
    assert_eq!(state.document_store.len(), 2);
    assert_eq!(state.get_document("id-1").unwrap().text, "one");
    assert_eq!(state.get_document("id-2").unwrap().text, "two words");
    let ids: Vec<String> = state.get_all_documents().into_iter().map(|d| d.id).collect();
    assert_eq!(ids, vec!["id-1", "id-2"]);
}

#[test]
fn create_under_a_stored_id_replaces() {
    let mut state = AppState::default();
    state.create_document("same".to_string(), DocumentInput { text: "x y".to_string() });
    let second = state.create_document("same".to_string(), DocumentInput { text: "z".to_string() });
    assert_eq!(second.word_count, 1);
    assert_eq!(state.document_store.len(), 1);
    assert_eq!(state.get_document("same").unwrap().text, "z");
    assert_eq!(state.document_store.index().document_frequency_of("x"), 0);
    assert_eq!(state.document_store.index().document_frequency_of("z"), 1);
}

#[test]
fn update_of_unknown_key_creates() {
    let mut state = AppState::default();
    state.update_document("fresh".to_string(), DocumentInput { text: "a b c".to_string() });
    assert_eq!(state.get_document("fresh").unwrap().word_count, 3);
}

#[test]
fn error_statuses() {
    assert_eq!(ApiError::NotFound.status(), 404);
    assert_eq!(ApiError::InvalidInput.status(), 400);
    assert_eq!(ApiError::Internal.status(), 500);
}

#[test]
fn search_request_defaults_the_limit() {
    let request = search_request(Some("cats".to_string()), None).ok().unwrap();
    assert_eq!(request.query, "cats");
    assert_eq!(request.top_k, DEFAULT_LIMIT);
    assert_eq!(DEFAULT_LIMIT, 10);
}

#[test]
fn search_request_takes_a_positive_limit() {
    let request = search_request(Some("cats".to_string()), Some(3)).ok().unwrap();
    assert_eq!(request.top_k, 3);
    let request = search_request(Some("".to_string()), Some(1)).ok().unwrap();
    assert_eq!(request.query, "");
    assert_eq!(request.top_k, 1);
}

#[test]
fn search_request_rejects_missing_query() {
    assert_eq!(search_request(None, None).err(), Some(ApiError::InvalidInput));
    assert_eq!(search_request(None, Some(5)).err(), Some(ApiError::InvalidInput));
}

#[test]
fn search_request_rejects_non_positive_limit() {
    assert_eq!(search_request(Some("q".to_string()), Some(0)).err(), Some(ApiError::InvalidInput));
    assert_eq!(search_request(Some("q".to_string()), Some(-1)).err(), Some(ApiError::InvalidInput));
    assert_eq!(
        search_request(Some("q".to_string()), Some(i64::MIN)).err(),
        Some(ApiError::InvalidInput)
    );
}

#[test]
fn search_request_accepts_the_largest_limit() {
    let request = search_request(Some("q".to_string()), Some(i64::MAX)).ok().unwrap();
    assert_eq!(request.top_k, i64::MAX as usize);
}
