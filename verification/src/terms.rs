//! Counting how often each token occurs in a token sequence.

use vstd::prelude::*;

verus! {

/// How many times `token` occurs in `tokens`.
pub open spec fn occurrences(tokens: Seq<Seq<char>>, token: Seq<char>) -> nat
    decreases tokens.len(),
{
    if tokens.len() == 0 {
        0
    } else {
        occurrences(tokens.drop_last(), token) + if tokens.last() == token {
            1nat
        } else {
            0nat
        }
    }
}

/// The tokens of `tokens` without repetitions, each at the place of its first
/// occurrence.
pub open spec fn distinct(tokens: Seq<Seq<char>>) -> Seq<Seq<char>>
    decreases tokens.len(),
{
    if tokens.len() == 0 {
        Seq::empty()
    } else {
        let before = distinct(tokens.drop_last());
        if before.contains(tokens.last()) {
            before
        } else {
            before.push(tokens.last())
        }
    }
}

/// A token together with the number of times it occurs.
pub struct TermCount {
    pub token: String,
    pub count: usize,
}

/// The tokens of a sequence of term counts, in order.
pub open spec fn counted_tokens(counts: Seq<TermCount>) -> Seq<Seq<char>> {
    Seq::new(counts.len(), |i: int| counts[i].token@)
}

/// A token occurs no more often than the sequence is long.
pub proof fn lemma_occurrences_bound(tokens: Seq<Seq<char>>, token: Seq<char>)
    ensures
        occurrences(tokens, token) <= tokens.len(),
    decreases tokens.len(),
{
    if tokens.len() > 0 {
        lemma_occurrences_bound(tokens.drop_last(), token);
    }
}

/// A token is among the distinct tokens exactly when it occurs at least once.
pub proof fn lemma_distinct_contains(tokens: Seq<Seq<char>>, token: Seq<char>)
    ensures
        distinct(tokens).contains(token) <==> occurrences(tokens, token) > 0,
        distinct(tokens).contains(token) <==> tokens.contains(token),
    decreases tokens.len(),
{
    if tokens.len() > 0 {
        let before = tokens.drop_last();
        lemma_distinct_contains(before, token);
        lemma_distinct_contains(before, tokens.last());
        if tokens.contains(token) {
            let k = choose|k: int| 0 <= k < tokens.len() && tokens[k] == token;
            if k < before.len() {
                assert(before[k] == token);
            }
        }
        if before.contains(token) {
            let k = choose|k: int| 0 <= k < before.len() && before[k] == token;
            assert(tokens[k] == token);
        }
        if token == tokens.last() {
            assert(tokens[tokens.len() - 1] == token);
            if !distinct(before).contains(token) {
                assert(distinct(before).push(token)[distinct(before).len() as int] == token);
            }
        } else if distinct(before).contains(tokens.last()) {
        } else {
            let d = distinct(before);
            if d.contains(token) {
                let k = choose|k: int| 0 <= k < d.len() && d[k] == token;
                assert(d.push(tokens.last())[k] == token);
            }
            if d.push(tokens.last()).contains(token) {
                let k = choose|k: int|
                    0 <= k < d.push(tokens.last()).len() && d.push(tokens.last())[k] == token;
                assert(d[k] == token);
            }
        }
    }
}

/// No token is listed twice among the distinct tokens.
pub proof fn lemma_distinct_no_duplicates(tokens: Seq<Seq<char>>)
    ensures
        distinct(tokens).no_duplicates(),
    decreases tokens.len(),
{
    if tokens.len() > 0 {
        lemma_distinct_no_duplicates(tokens.drop_last());
    }
}

/// The position of `token` among `counts`, if it is listed.
fn find_term(counts: &Vec<TermCount>, token: &String) -> (found: Option<usize>)
    ensures
        match found {
            Some(j) => j < counts.len() && counts[j as int].token@ == token@,
            None => !counted_tokens(counts@).contains(token@),
        },
{
    let mut j: usize = 0;
    while j < counts.len()
        invariant
            j <= counts.len(),
            forall|i: int| 0 <= i < j ==> counts[i].token@ != token@,
        decreases counts.len() - j,
    {
        if counts[j].token == *token {
            return Some(j);
        }
        j += 1;
    }
    None
}

/// Lists each distinct token of `tokens` once, in order of first occurrence,
/// with the number of times it occurs.
pub fn term_counts(tokens: &Vec<String>) -> (counts: Vec<TermCount>)
    ensures
        counted_tokens(counts@) == distinct(tokens.deep_view()),
        forall|i: int|
            0 <= i < counts.len() ==> (#[trigger] counts[i]).count == occurrences(
                tokens.deep_view(),
                counts[i].token@,
            ),
{
    let ghost all = tokens.deep_view();
    let mut counts: Vec<TermCount> = Vec::new();
    let mut k: usize = 0;
    assert(counted_tokens(counts@) =~= distinct(all.take(0)));
    while k < tokens.len()
        invariant
            k <= tokens.len(),
            all == tokens.deep_view(),
            counted_tokens(counts@) == distinct(all.take(k as int)),
            forall|i: int|
                0 <= i < counts.len() ==> (#[trigger] counts[i]).count == occurrences(
                    all.take(k as int),
                    counts[i].token@,
                ),
        decreases tokens.len() - k,
    {
        let token = &tokens[k];
        let ghost seen = all.take(k as int);
        let ghost next = all.take(k + 1);
        proof {
            assert(next.drop_last() =~= seen);
            assert(next.last() == token@);
        }
        match find_term(&counts, token) {
            Some(j) => {
                proof {
                    lemma_occurrences_bound(seen, token@);
                    assert(counted_tokens(counts@)[j as int] == token@);
                }
                let ghost before = counts@;
                counts[j].count += 1;
                assert(counted_tokens(counts@) =~= counted_tokens(before));
                assert forall|i: int| 0 <= i < counts.len() implies (#[trigger] counts[i]).count
                    == occurrences(next, counts[i].token@) by {
                    lemma_distinct_no_duplicates(seen);
                    assert(counted_tokens(before)[i] == before[i].token@);
                    assert(before[i].count == occurrences(seen, before[i].token@));
                }
            },
            None => {
                proof {
                    lemma_distinct_contains(seen, token@);
                }
                let ghost before = counts@;
                counts.push(TermCount { token: token.clone(), count: 1 });
                assert(counted_tokens(counts@) =~= counted_tokens(before).push(token@));
                assert forall|i: int| 0 <= i < counts.len() implies (#[trigger] counts[i]).count
                    == occurrences(next, counts[i].token@) by {
                    if i < before.len() {
                        assert(counted_tokens(before)[i] == before[i].token@);
                        assert(before[i].count == occurrences(seen, before[i].token@));
                    }
                }
            },
        }
        k += 1;
    }
    assert(all.take(k as int) =~= all);
    counts
}

} // verus!
