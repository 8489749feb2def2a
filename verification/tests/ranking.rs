use document_search::ranking::{id_less, key_bits, rank, score_key, Scored, SIGN_BIT};

fn entry(id: &str, score: i64) -> Scored {
    Scored { document_id: id.to_string(), score }
}

fn ids(ranked: &[Scored]) -> Vec<&str> {
    ranked.iter().map(|s| s.document_id.as_str()).collect()
}

#[test]
fn id_less_is_lexicographic() {
    assert!(id_less("a", "b"));
    assert!(!id_less("b", "a"));
    assert!(!id_less("a", "a"));
    assert!(id_less("", "a"));
    assert!(!id_less("a", ""));
    assert!(!id_less("", ""));
    assert!(id_less("doc1", "doc10"));
    assert!(id_less("doc10", "doc2"));
    assert!(id_less("Z", "a"));
    assert!(id_less("z", "é"));
    assert_eq!(id_less("abc", "abd"), "abc" < "abd");
}

#[test]
fn rank_orders_by_score_descending() {
    let ranked = rank(vec![entry("a", 1), entry("b", 3), entry("c", 2)], 10);
    assert_eq!(ids(&ranked), vec!["b", "c", "a"]);
    assert_eq!(ranked[0].score, 3);
}

#[test]
fn rank_breaks_ties_by_ascending_id() {
    let ranked = rank(vec![entry("doc2", 5), entry("doc3", 5), entry("doc1", 5)], 10);
    assert_eq!(ids(&ranked), vec!["doc1", "doc2", "doc3"]);
}

#[test]
fn rank_truncates_to_top_k() {
    let entries = vec![entry("a", 10), entry("b", 50), entry("c", 30), entry("d", 40), entry("e", 20)];
    let full = rank(entries.clone(), 5);
    assert_eq!(ids(&full), vec!["b", "d", "c", "e", "a"]);
    let top = rank(entries, 2);
    assert_eq!(top.len(), 2);
    assert_eq!(ids(&top), ids(&full[..2]));
    assert_eq!(ids(&top), vec!["b", "d"]);
}

#[test]
fn rank_with_zero_or_large_top_k() {
    let entries = vec![entry("a", 1), entry("b", 2)];
    assert!(rank(entries.clone(), 0).is_empty());
    assert_eq!(rank(entries, usize::MAX).len(), 2);
    assert!(rank(Vec::new(), 3).is_empty());
}

#[test]
fn rank_handles_negative_scores() {
    let ranked = rank(vec![entry("a", -5), entry("b", i64::MIN), entry("c", 0), entry("d", i64::MAX)], 4);
    assert_eq!(ids(&ranked), vec!["d", "c", "a", "b"]);
}

#[test]
fn score_key_of_given_patterns() {
    assert_eq!(score_key(0), 0);
    assert_eq!(score_key(1), 1);
    assert_eq!(score_key(SIGN_BIT - 1), i64::MAX);
    assert_eq!(score_key(SIGN_BIT), -1);
    assert_eq!(score_key(SIGN_BIT + 1), -2);
    assert_eq!(score_key(u64::MAX), i64::MIN);
}

#[test]
fn score_key_orders_as_the_numbers_do() {
    let numbers = [
        f64::NEG_INFINITY,
        -1.0e300,
        -2.5,
        -1.0,
        -1.0e-300,
        0.0,
        1.0e-300,
        0.5,
        1.0,
        1.5,
        1.0e300,
        f64::INFINITY,
    ];
    for pair in numbers.windows(2) {
        assert!(pair[0] < pair[1]);
        assert!(score_key(pair[0].to_bits()) < score_key(pair[1].to_bits()));
    }
    assert!(score_key((-0.0f64).to_bits()) < score_key(0.0f64.to_bits()));
}

#[test]
fn key_bits_undoes_score_key() {
    for bits in [0u64, 1, 42, SIGN_BIT - 1, SIGN_BIT, SIGN_BIT + 7, u64::MAX, 1.25f64.to_bits(), (-3.75f64).to_bits()] {
        assert_eq!(key_bits(score_key(bits)), bits);
    }
    for key in [0i64, 1, -1, i64::MIN, i64::MAX, -12345] {
        assert_eq!(score_key(key_bits(key)), key);
    }
    assert_eq!(f64::from_bits(key_bits(score_key((-0.6f64).to_bits()))), -0.6);
}
