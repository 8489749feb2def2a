use document_search::index::InvertedIndex;
use document_search::string_map::StringMap;
use document_search::terms::term_counts;

fn words(text: &str) -> Vec<String> {
    text.split(' ').filter(|w| !w.is_empty()).map(|w| w.to_string()).collect()
}

#[test]
fn term_counts_lists_distinct_tokens_in_order() {
    let counts = term_counts(&words("b a b c a b"));
    let listed: Vec<(&str, usize)> = counts.iter().map(|c| (c.token.as_str(), c.count)).collect();
    assert_eq!(listed, vec![("b", 3), ("a", 2), ("c", 1)]);
}

#[test]
fn term_counts_of_nothing() {
    assert!(term_counts(&Vec::new()).is_empty());
}

#[test]
fn new_index_is_empty() {
    let index = InvertedIndex::new();
    assert_eq!(index.stats().total_documents, 0);
    assert_eq!(index.stats().total_token_count, 0);
    assert!(index.postings_for("anything").is_empty());
    assert_eq!(index.document_frequency_of("anything"), 0);
    assert_eq!(index.term_frequency_of("anything", "doc"), 0);
}

#[test]
fn add_counts_term_frequencies() {
    let mut index = InvertedIndex::new();
    index.add("d1", &words("the cat and the hat"));
    assert_eq!(index.stats().total_documents, 1);
    assert_eq!(index.stats().total_token_count, 5);
    assert_eq!(index.term_frequency_of("the", "d1"), 2);
    assert_eq!(index.term_frequency_of("cat", "d1"), 1);
    assert_eq!(index.term_frequency_of("dog", "d1"), 0);
    assert_eq!(index.term_frequency_of("the", "d2"), 0);
    let postings = index.postings_for("the");
    assert_eq!(postings.len(), 1);
    assert_eq!(postings[0].document_id, "d1");
    assert_eq!(postings[0].term_frequency, 2);
}

#[test]
fn document_frequency_is_posting_list_size() {
    let mut index = InvertedIndex::new();
    index.add("d1", &words("the cat sat"));
    index.add("d2", &words("the cat ran"));
    index.add("d3", &words("a dog barked"));
    assert_eq!(index.document_frequency_of("the"), 2);
    assert_eq!(index.document_frequency_of("cat"), 2);
    assert_eq!(index.document_frequency_of("dog"), 1);
    assert_eq!(index.document_frequency_of("bird"), 0);
    let mut ids: Vec<String> = index.postings_for("cat").into_iter().map(|p| p.document_id).collect();
    ids.sort();
    assert_eq!(ids, vec!["d1", "d2"]);
    assert_eq!(index.stats().total_documents, 3);
    assert_eq!(index.stats().total_token_count, 9);
}

#[test]
fn remove_is_the_inverse_of_add() {
    let mut index = InvertedIndex::new();
    index.add("d1", &words("x y x"));
    index.add("d2", &words("y z"));
    index.remove("d1", &words("x y x"));
    assert_eq!(index.stats().total_documents, 1);
    assert_eq!(index.stats().total_token_count, 2);
    assert_eq!(index.document_frequency_of("x"), 0);
    assert!(index.postings_for("x").is_empty());
    assert_eq!(index.document_frequency_of("y"), 1);
    assert_eq!(index.term_frequency_of("y", "d1"), 0);
    assert_eq!(index.term_frequency_of("y", "d2"), 1);
    assert_eq!(index.document_frequency_of("z"), 1);
}

#[test]
fn document_without_tokens_still_counts() {
    let mut index = InvertedIndex::new();
    index.add("empty", &Vec::new());
    assert_eq!(index.stats().total_documents, 1);
    assert_eq!(index.stats().total_token_count, 0);
    index.remove("empty", &Vec::new());
    assert_eq!(index.stats().total_documents, 0);
}

#[test]
fn add_overwrites_an_existing_posting() {
    let mut index = InvertedIndex::new();
    index.add("d", &words("a a a"));
    index.add("d", &words("a"));
    assert_eq!(index.term_frequency_of("a", "d"), 1);
    assert_eq!(index.document_frequency_of("a"), 1);
    assert_eq!(index.stats().total_documents, 2);
    assert_eq!(index.stats().total_token_count, 4);
}

#[test]
fn string_map_insert_get_remove() {
    let mut map: StringMap<u32> = StringMap::new();
    assert_eq!(map.len(), 0);
    assert_eq!(map.insert("one".to_string(), 1), None);
    assert_eq!(map.insert("two".to_string(), 2), None);
    assert_eq!(map.insert("one".to_string(), 11), Some(1));
    assert_eq!(map.len(), 2);
    assert_eq!(map.get(&"one".to_string()), Some(&11));
    assert_eq!(map.get(&"three".to_string()), None);
    assert_eq!(map.find(&"two".to_string()), Some(1));
    assert_eq!(map.key_at(0), "one");
    assert_eq!(*map.value_at(1), 2);
    *map.value_at_mut(1) += 5;
    assert_eq!(map.get(&"two".to_string()), Some(&7));
    assert_eq!(map.remove(&"one".to_string()), Some(11));
    assert_eq!(map.remove(&"one".to_string()), None);
    assert_eq!(map.len(), 1);
    assert_eq!(map.key_at(0), "two");
}
