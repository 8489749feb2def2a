use document_search::documents::{Document, DocumentStore};

#[test]
fn test_document_creation() {
    let doc = Document {
        id: "test-id".to_string(),
        text: "This is a test document".to_string(),
        word_count: 5,
    };

    assert_eq!(doc.id, "test-id");
    assert_eq!(doc.text, "This is a test document");
    assert_eq!(doc.word_count, 5);
}

#[test]
fn test_document_from_helper() {
    let doc = Document::new(
        "test-id".to_string(),
        "Hello world this is a test".to_string(),
    );

    assert_eq!(doc.id, "test-id");
    assert_eq!(doc.text, "Hello world this is a test");
    assert_eq!(doc.word_count, 6);

    // Test with empty string
    let empty_doc = Document::new("empty".to_string(), "".to_string());
    assert_eq!(empty_doc.word_count, 0);

    // Test with multiple spaces
    let spaced_doc = Document::new("spaced".to_string(), "word1   word2\t\nword3".to_string());
    assert_eq!(spaced_doc.word_count, 3);
}

#[test]
fn test_document_store_insert_and_get() {
    let mut store = DocumentStore::default();
    let doc = Document {
        id: "doc1".to_string(),
        text: "First document".to_string(),
        word_count: 2,
    };

    store.insert(doc.clone());

    let retrieved = store.get("doc1");
    assert!(retrieved.is_some());
    assert_eq!(retrieved.unwrap().text, "First document");
}

#[test]
fn test_document_store_get_nonexistent() {
    let store = DocumentStore::default();
    let result = store.get("nonexistent");
    assert!(result.is_none());
}

#[test]
fn test_document_store_update() {
    let mut store = DocumentStore::default();

    let doc1 = Document {
        id: "doc1".to_string(),
        text: "Original text".to_string(),
        word_count: 2,
    };
    store.insert(doc1);

    let doc2 = Document {
        id: "doc1".to_string(),
        text: "Updated text".to_string(),
        word_count: 2,
    };
    store.insert(doc2);

    let retrieved = store.get("doc1").unwrap();
    assert_eq!(retrieved.text, "Updated text");
}

#[test]
fn test_document_store_iter() {
    let mut store = DocumentStore::default();

    let doc1 = Document {
        id: "doc1".to_string(),
        text: "First document".to_string(),
        word_count: 2,
    };
    let doc2 = Document {
        id: "doc2".to_string(),
        text: "Second document".to_string(),
        word_count: 2,
    };

    store.insert(doc1);
    store.insert(doc2);

    let documents: Vec<_> = store.iter().collect();
    assert_eq!(documents.len(), 2);

    let ids: Vec<&String> = documents.iter().map(|(id, _)| *id).collect();
    assert!(ids.contains(&&"doc1".to_string()));
    assert!(ids.contains(&&"doc2".to_string()));
}

#[test]
fn test_document_clone() {
    let doc = Document {
        id: "test-id".to_string(),
        text: "Test content".to_string(),
        word_count: 2,
    };

    let cloned = doc.clone();
    assert_eq!(doc.id, cloned.id);
    assert_eq!(doc.text, cloned.text);
}

#[test]
fn word_count_counts_tokens_not_whitespace_runs() {
    let doc = Document::new("d".to_string(), "a - b ... c".to_string());
    assert_eq!(doc.word_count, 3);
}

#[test]
fn insert_ignores_the_given_word_count() {
    let mut store = DocumentStore::new();
    store.insert(Document {
        id: "d".to_string(),
        text: "one two three".to_string(),
        word_count: 99,
    });
    assert_eq!(store.get("d").unwrap().word_count, 3);
    assert_eq!(store.stats().total_token_count, 3);
}

#[test]
fn round_trip_returns_text_and_length() {
    let mut store = DocumentStore::new();
    let stored = store.insert_or_replace("a".to_string(), "The quick, brown fox!".to_string());
    assert_eq!(stored.id, "a");
    assert_eq!(stored.text, "The quick, brown fox!");
    assert_eq!(stored.word_count, 4);
    let found = store.get("a").unwrap();
    assert_eq!(found.id, "a");
    assert_eq!(found.text, "The quick, brown fox!");
    assert_eq!(found.word_count, 4);
}

#[test]
fn stats_follow_inserts_updates_and_deletes() {
    let mut store = DocumentStore::new();
    assert_eq!(store.stats().total_documents, 0);
    assert_eq!(store.stats().total_token_count, 0);

    store.insert_or_replace("a".to_string(), "one two three".to_string());
    store.insert_or_replace("b".to_string(), "four five".to_string());
    store.insert_or_replace("c".to_string(), "".to_string());
    assert_eq!(store.stats().total_documents, 3);
    assert_eq!(store.stats().total_token_count, 5);
    assert_eq!(store.len(), 3);

    store.insert_or_replace("a".to_string(), "one".to_string());
    assert_eq!(store.stats().total_documents, 3);
    assert_eq!(store.stats().total_token_count, 3);

    assert!(store.delete("b"));
    assert_eq!(store.stats().total_documents, 2);
    assert_eq!(store.stats().total_token_count, 1);

    assert!(!store.delete("b"));
    assert_eq!(store.stats().total_documents, 2);
    assert_eq!(store.stats().total_token_count, 1);

    assert!(store.delete("c"));
    assert!(store.delete("a"));
    assert_eq!(store.stats().total_documents, 0);
    assert_eq!(store.stats().total_token_count, 0);
    assert_eq!(store.len(), 0);
}

#[test]
fn replace_retracts_old_postings() {
    let mut store = DocumentStore::new();
    store.insert_or_replace("A".to_string(), "x y".to_string());
    assert_eq!(store.index().document_frequency_of("x"), 1);
    assert_eq!(store.index().document_frequency_of("y"), 1);

    store.insert_or_replace("A".to_string(), "z".to_string());
    assert_eq!(store.index().document_frequency_of("x"), 0);
    assert_eq!(store.index().document_frequency_of("y"), 0);
    assert_eq!(store.index().document_frequency_of("z"), 1);
    assert!(store.index().postings_for("x").is_empty());
    assert_eq!(store.index().term_frequency_of("z", "A"), 1);
}

#[test]
fn delete_removes_document_and_postings() {
    let mut store = DocumentStore::new();
    store.insert_or_replace("a".to_string(), "shared alpha".to_string());
    store.insert_or_replace("b".to_string(), "shared beta".to_string());
    assert_eq!(store.index().document_frequency_of("shared"), 2);

    assert!(store.delete("a"));
    assert!(store.get("a").is_none());
    assert_eq!(store.index().document_frequency_of("shared"), 1);
    assert_eq!(store.index().document_frequency_of("alpha"), 0);
    assert_eq!(store.index().term_frequency_of("shared", "b"), 1);
    assert_eq!(store.index().term_frequency_of("shared", "a"), 0);
}

#[test]
fn list_keeps_the_order_of_first_insertion() {
    let mut store = DocumentStore::new();
    store.insert_or_replace("first".to_string(), "one".to_string());
    store.insert_or_replace("second".to_string(), "two".to_string());
    store.insert_or_replace("third".to_string(), "three".to_string());
    store.insert_or_replace("first".to_string(), "one again".to_string());

    let listed = store.list();
    let ids: Vec<&str> = listed.iter().map(|d| d.id.as_str()).collect();
    assert_eq!(ids, vec!["first", "second", "third"]);
    assert_eq!(listed[0].text, "one again");
    assert_eq!(listed[0].word_count, 2);

    store.delete("second");
    let listed = store.list();
    let ids: Vec<&str> = listed.iter().map(|d| d.id.as_str()).collect();
    assert_eq!(ids, vec!["first", "third"]);
    assert_eq!(store.document_at(1).id, "third");
}

#[test]
fn iter_pairs_each_id_with_its_document() {
    let mut store = DocumentStore::new();
    store.insert_or_replace("k1".to_string(), "alpha beta".to_string());
    store.insert_or_replace("k2".to_string(), "gamma".to_string());
    let entries: Vec<(&String, &Document)> = store.iter().collect();
    assert_eq!(entries.len(), 2);
    assert_eq!(entries[0].0, "k1");
    assert_eq!(entries[0].1.id, "k1");
    assert_eq!(entries[0].1.text, "alpha beta");
    assert_eq!(entries[0].1.word_count, 2);
    assert_eq!(entries[1].0, "k2");
    assert_eq!(entries[1].1.word_count, 1);
}

#[test]
fn empty_document_counts_but_has_no_postings() {
    let mut store = DocumentStore::new();
    store.insert_or_replace("blank".to_string(), "  ...  ".to_string());
    assert_eq!(store.stats().total_documents, 1);
    assert_eq!(store.stats().total_token_count, 0);
    assert_eq!(store.get("blank").unwrap().word_count, 0);
}

#[test]
fn tokens_are_those_of_the_stored_text() {
    let mut store = DocumentStore::new();
    store.insert_or_replace("a".to_string(), "The CAT, the hat.".to_string());
    assert_eq!(store.tokens("a").unwrap(), &vec!["the", "cat", "the", "hat"]);
    assert!(store.tokens("b").is_none());
}
