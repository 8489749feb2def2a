use document_search::documents::DocumentStore;
use document_search::index::IndexStats;
use document_search::query::{candidates, Candidate, TermMatch};
use document_search::ranking::{key_bits, score_key};

const K1: f64 = 1.5;
const B: f64 = 0.75;

fn idf(total_documents: usize, document_frequency: usize) -> f64 {
    let n = total_documents as f64;
    let df = document_frequency as f64;
    ((n - df + 0.5) / (df + 0.5)).ln()
}

fn tf_score(term_frequency: usize, document_length: usize, average_length: f64) -> f64 {
    let f = term_frequency as f64;
    f * (K1 + 1.0) / (f + K1 * (1.0 - B + B * document_length as f64 / average_length))
}

fn score(candidate: &Candidate, stats: IndexStats) -> f64 {
    let average_length = stats.total_token_count as f64 / stats.total_documents as f64;
    let mut total = 0.0;
    for m in &candidate.matches {
        if average_length > 0.0 {
            total += idf(stats.total_documents, m.document_frequency)
                * tf_score(m.term_frequency, candidate.document_length, average_length);
        }
    }
    total
}

fn to_key(score: f64) -> i64 {
    let score = if score == 0.0 { 0.0 } else { score };
    score_key(score.to_bits())
}

fn from_key(key: i64) -> f64 {
    f64::from_bits(key_bits(key))
}

fn search(store: &DocumentStore, query: &str, top_k: usize) -> Vec<(String, f64)> {
    let by_bm25 = |candidate: &Candidate, stats: IndexStats| to_key(score(candidate, stats));
    document_search::query::search(store, query, top_k, by_bm25)
        .into_iter()
        .map(|hit| (hit.document_id, from_key(hit.score)))
        .collect()
}

fn cat_corpus() -> DocumentStore {
    let mut store = DocumentStore::new();
    store.insert_or_replace("doc1".to_string(), "the cat sat".to_string());
    store.insert_or_replace("doc2".to_string(), "the cat ran".to_string());
    store.insert_or_replace("doc3".to_string(), "a dog barked".to_string());
    store
}

#[test]
fn candidates_carry_the_counts_for_scoring() {
    let store = cat_corpus();
    let found = candidates(&store, "cat");
    assert_eq!(found.len(), 2);
    assert_eq!(found[0].document_id, "doc1");
    assert_eq!(found[0].document_length, 3);
    assert_eq!(found[0].matches, vec![TermMatch { term_frequency: 1, document_frequency: 2 }]);
    assert_eq!(found[1].document_id, "doc2");
    assert_eq!(found[1].document_length, 3);
    assert_eq!(found[1].matches, vec![TermMatch { term_frequency: 1, document_frequency: 2 }]);
}

#[test]
fn candidates_list_one_match_per_distinct_query_token() {
    let mut store = DocumentStore::new();
    store.insert_or_replace("a".to_string(), "red red green".to_string());
    store.insert_or_replace("b".to_string(), "green blue".to_string());
    store.insert_or_replace("c".to_string(), "yellow".to_string());
    let found = candidates(&store, "Green, RED green; pink");
    assert_eq!(found.len(), 2);
    assert_eq!(found[0].document_id, "a");
    assert_eq!(
        found[0].matches,
        vec![
            TermMatch { term_frequency: 1, document_frequency: 2 },
            TermMatch { term_frequency: 2, document_frequency: 1 },
        ]
    );
    assert_eq!(found[1].document_id, "b");
    assert_eq!(found[1].document_length, 2);
    assert_eq!(found[1].matches, vec![TermMatch { term_frequency: 1, document_frequency: 2 }]);
}

#[test]
fn search_is_deterministic_and_breaks_ties_by_id() {
    let store = cat_corpus();
    let results = search(&store, "cat", 10);
    assert_eq!(results.len(), 2);
    assert_eq!(results[0].0, "doc1");
    assert_eq!(results[1].0, "doc2");
    assert_eq!(results[0].1, results[1].1);
    assert!(results.iter().all(|(id, _)| id != "doc3"));
    assert_eq!(search(&store, "cat", 10), results);
}

#[test]
fn common_term_scores_negative_without_smoothing() {
    // "cat" is in two of three documents, so its inverse document frequency
    // is ln(1.5 / 2.5), which is below zero; the formula has no smoothing.
    let store = cat_corpus();
    let results = search(&store, "cat", 10);
    let expected = (1.5f64 / 2.5).ln() * (1.0 * 2.5 / (1.0 + 1.5 * (1.0 - 0.75 + 0.75 * 3.0 / 3.0)));
    assert!(expected < 0.0);
    assert!((results[0].1 - expected).abs() < 1e-12);
}

#[test]
fn rare_term_scores_positive() {
    let store = cat_corpus();
    let results = search(&store, "dog", 10);
    assert_eq!(results.len(), 1);
    assert_eq!(results[0].0, "doc3");
    let expected = (2.5f64 / 1.5).ln() * (2.5 / 2.5);
    assert!((results[0].1 - expected).abs() < 1e-12);
    assert!(results[0].1 > 0.0);
}

#[test]
fn unknown_token_gives_no_results() {
    let store = cat_corpus();
    assert!(candidates(&store, "unicorn").is_empty());
    assert!(search(&store, "unicorn", 10).is_empty());
    assert!(search(&store, "", 10).is_empty());
    assert!(search(&store, "?!", 10).is_empty());
}

#[test]
fn empty_corpus_gives_no_results() {
    let store = DocumentStore::new();
    assert!(candidates(&store, "cat").is_empty());
    assert!(search(&store, "anything at all", 10).is_empty());
}

#[test]
fn corpus_of_empty_documents_gives_no_results() {
    let mut store = DocumentStore::new();
    store.insert_or_replace("blank".to_string(), "".to_string());
    assert!(search(&store, "cat", 10).is_empty());
}

#[test]
fn top_k_keeps_the_highest_scoring() {
    let mut store = DocumentStore::new();
    store.insert_or_replace("d1".to_string(), "fish".to_string());
    store.insert_or_replace("d2".to_string(), "fish fish water".to_string());
    store.insert_or_replace("d3".to_string(), "fish water water water".to_string());
    store.insert_or_replace("d4".to_string(), "fish fish fish".to_string());
    store.insert_or_replace("d5".to_string(), "fish water".to_string());
    for i in 0..20 {
        store.insert_or_replace(format!("other{}", i), "stone sand".to_string());
    }
    let full = search(&store, "fish", 100);
    assert_eq!(full.len(), 5);
    for pair in full.windows(2) {
        assert!(pair[0].1 > pair[1].1 || (pair[0].1 == pair[1].1 && pair[0].0 < pair[1].0));
    }
    let top = search(&store, "fish", 2);
    assert_eq!(top.len(), 2);
    assert_eq!(top, full[..2].to_vec());
    assert_eq!(top[0].0, "d4");
}

#[test]
fn scores_add_up_over_query_tokens() {
    let mut store = DocumentStore::new();
    store.insert_or_replace("both".to_string(), "apple pear".to_string());
    store.insert_or_replace("one".to_string(), "apple plum".to_string());
    for i in 0..6 {
        store.insert_or_replace(format!("filler{}", i), "stone sand".to_string());
    }
    let apple = search(&store, "apple", 10);
    let pear = search(&store, "pear", 10);
    let both = search(&store, "apple pear", 10);
    assert_eq!(both[0].0, "both");
    let apple_both = apple.iter().find(|(id, _)| id == "both").unwrap().1;
    assert!((both[0].1 - (apple_both + pear[0].1)).abs() < 1e-12);
}

#[test]
fn search_ranks_by_the_given_score() {
    let mut store = DocumentStore::new();
    store.insert_or_replace("short".to_string(), "tree".to_string());
    store.insert_or_replace("long".to_string(), "tree tree tree bush".to_string());
    store.insert_or_replace("none".to_string(), "bush".to_string());

    let by_length = |candidate: &Candidate, _stats: IndexStats| candidate.document_length as i64;
    let hits = document_search::query::search(&store, "tree", 10, by_length);
    let listed: Vec<(&str, i64)> = hits.iter().map(|h| (h.document_id.as_str(), h.score)).collect();
    assert_eq!(listed, vec![("long", 4), ("short", 1)]);

    let by_documents = |_candidate: &Candidate, stats: IndexStats| stats.total_documents as i64;
    let hits = document_search::query::search(&store, "tree bush", 2, by_documents);
    let listed: Vec<(&str, i64)> = hits.iter().map(|h| (h.document_id.as_str(), h.score)).collect();
    assert_eq!(listed, vec![("long", 3), ("none", 3)]);
}
