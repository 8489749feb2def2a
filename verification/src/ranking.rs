//! Ordering scored documents: best score first, equal scores by ascending id.

use vstd::prelude::*;
use vstd::std_specs::iter::IteratorSpec;

verus! {

/// Whether `a` comes strictly before `b` in the lexicographic order of code
/// points, the order in which strings compare.
pub open spec fn lex_less(a: Seq<char>, b: Seq<char>) -> bool
    decreases a.len(),
{
    if b.len() == 0 {
        false
    } else if a.len() == 0 {
        true
    } else if a.first() != b.first() {
        (a.first() as int) < (b.first() as int)
    } else {
        lex_less(a.drop_first(), b.drop_first())
    }
}

/// A common prefix does not change how two sequences compare.
proof fn lemma_lex_less_prefix(a: Seq<char>, b: Seq<char>, n: int)
    requires
        0 <= n <= a.len(),
        n <= b.len(),
        a.take(n) == b.take(n),
    ensures
        lex_less(a, b) == lex_less(a.skip(n), b.skip(n)),
    decreases n,
{
    if n > 0 {
        assert(a.first() == a.take(n)[0]);
        assert(b.first() == b.take(n)[0]);
        assert(a.drop_first().take(n - 1) =~= a.take(n).drop_first());
        assert(b.drop_first().take(n - 1) =~= b.take(n).drop_first());
        lemma_lex_less_prefix(a.drop_first(), b.drop_first(), n - 1);
        assert(a.drop_first().skip(n - 1) =~= a.skip(n));
        assert(b.drop_first().skip(n - 1) =~= b.skip(n));
    } else {
        assert(a.skip(0) =~= a);
        assert(b.skip(0) =~= b);
    }
}

/// Whether `a` comes strictly before `b` as strings compare.
pub fn id_less(a: &str, b: &str) -> (less: bool)
    ensures
        less == lex_less(a@, b@),
{
    broadcast use vstd::string::group_string_axioms;

    let mut x = a.chars();
    let mut y = b.chars();
    let ghost mut n: int = 0;
    assert(a@.skip(0) =~= a@);
    assert(b@.skip(0) =~= b@);
    loop
        invariant
            0 <= n <= a@.len(),
            n <= b@.len(),
            a@.take(n) == b@.take(n),
            x.remaining() == a@.skip(n),
            y.remaining() == b@.skip(n),
            x.obeys_prophetic_iter_laws(),
            y.obeys_prophetic_iter_laws(),
        decreases a@.len() - n,
    {
        proof {
            lemma_lex_less_prefix(a@, b@, n);
        }
        let p = x.next();
        let q = y.next();
        match (p, q) {
            (_, None) => {
                return false;
            },
            (None, Some(_)) => {
                return true;
            },
            (Some(c), Some(d)) => {
                if c != d {
                    return c < d;
                }
                proof {
                    assert(a@.take(n + 1) =~= a@.take(n).push(c));
                    assert(b@.take(n + 1) =~= b@.take(n).push(d));
                    assert(a@.skip(n).drop_first() =~= a@.skip(n + 1));
                    assert(b@.skip(n).drop_first() =~= b@.skip(n + 1));
                    n = n + 1;
                }
            },
        }
    }
}

/// A document with the score it reached. The score is an integer; a caller
/// that scores in another number type ranks by an order-preserving image.
#[derive(Clone, Debug)]
pub struct Scored {
    pub document_id: String,
    pub score: i64,
}

/// Whether `a` ranks strictly before `b`: by higher score, and among equal
/// scores by the smaller id.
pub open spec fn precedes(a: Scored, b: Scored) -> bool {
    a.score > b.score || (a.score == b.score && lex_less(a.document_id@, b.document_id@))
}

/// `ranked` with `entry` put in behind the last element that precedes it.
pub open spec fn placed(ranked: Seq<Scored>, entry: Scored) -> Seq<Scored>
    decreases ranked.len(),
{
    if ranked.len() == 0 {
        seq![entry]
    } else if precedes(ranked.last(), entry) {
        ranked.push(entry)
    } else {
        placed(ranked.drop_last(), entry).push(ranked.last())
    }
}

/// The entries in ranked order.
pub open spec fn ranking(entries: Seq<Scored>) -> Seq<Scored>
    decreases entries.len(),
{
    if entries.len() == 0 {
        Seq::empty()
    } else {
        placed(ranking(entries.drop_last()), entries.last())
    }
}

/// Whether every element of `ranked` precedes or ties with all that follow.
pub open spec fn is_ranked(ranked: Seq<Scored>) -> bool {
    forall|i: int, j: int| 0 <= i < j < ranked.len() ==> !precedes(ranked[j], ranked[i])
}

/// Placing an entry behind position `at` when everything from there on does
/// not precede it, and the element before does.
proof fn lemma_placed_at(ranked: Seq<Scored>, entry: Scored, at: int)
    requires
        0 <= at <= ranked.len(),
        forall|j: int| at <= j < ranked.len() ==> !precedes(ranked[j], entry),
        at == 0 || precedes(ranked[at - 1], entry),
    ensures
        placed(ranked, entry) == ranked.insert(at, entry),
    decreases ranked.len(),
{
    if ranked.len() == 0 {
        assert(ranked.insert(0, entry) =~= seq![entry]);
    } else if at == ranked.len() {
        assert(ranked.insert(at, entry) =~= ranked.push(entry));
    } else {
        lemma_placed_at(ranked.drop_last(), entry, at);
        assert(ranked.drop_last().insert(at, entry).push(ranked.last()) =~= ranked.insert(
            at,
            entry,
        ));
    }
}

fn comes_before(a: &Scored, b: &Scored) -> (before: bool)
    ensures
        before == precedes(*a, *b),
{
    if a.score != b.score {
        a.score > b.score
    } else {
        id_less(a.document_id.as_str(), b.document_id.as_str())
    }
}

/// Ranks `entries` and keeps at most the first `top_k` of them.
pub fn rank(entries: Vec<Scored>, top_k: usize) -> (ranked: Vec<Scored>)
    ensures
        ranked@ == ranking(entries@).take(
            if top_k <= entries.len() {
                top_k as int
            } else {
                entries.len() as int
            },
        ),
{
    let ghost all = entries@;
    let mut ranked: Vec<Scored> = Vec::new();
    assert(all.take(0) =~= Seq::<Scored>::empty());
    for entry in it: entries
        invariant
            it.seq() == all,
            ranked@ == ranking(all.take(it.index() as int)),
    {
        proof {
            assert(all.take(it.index() + 1).drop_last() =~= all.take(it.index() as int));
        }
        let mut at: usize = ranked.len();
        while at > 0 && !comes_before(&ranked[at - 1], &entry)
            invariant
                at <= ranked.len(),
                forall|j: int| at <= j < ranked.len() ==> !precedes(ranked[j], entry),
            decreases at,
        {
            at -= 1;
        }
        proof {
            lemma_placed_at(ranked@, entry, at as int);
        }
        ranked.insert(at, entry);
    }
    proof {
        assert(all.take(all.len() as int) =~= all);
        lemma_ranking_len(all);
    }
    ranked.truncate(top_k);
    ranked
}

/// Ranking keeps the number of entries.
pub proof fn lemma_ranking_len(entries: Seq<Scored>)
    ensures
        ranking(entries).len() == entries.len(),
    decreases entries.len(),
{
    if entries.len() > 0 {
        lemma_ranking_len(entries.drop_last());
        lemma_placed_len(ranking(entries.drop_last()), entries.last());
    }
}

/// Placing an entry adds one element.
proof fn lemma_placed_len(ranked: Seq<Scored>, entry: Scored)
    ensures
        placed(ranked, entry).len() == ranked.len() + 1,
    decreases ranked.len(),
{
    if ranked.len() > 0 && !precedes(ranked.last(), entry) {
        lemma_placed_len(ranked.drop_last(), entry);
    }
}

/// The lexicographic order is transitive.
pub proof fn lemma_lex_less_transitive(a: Seq<char>, b: Seq<char>, c: Seq<char>)
    requires
        lex_less(a, b),
        lex_less(b, c),
    ensures
        lex_less(a, c),
    decreases a.len(),
{
    if a.len() > 0 && a.first() == b.first() && b.first() == c.first() {
        lemma_lex_less_transitive(a.drop_first(), b.drop_first(), c.drop_first());
    }
}

/// Of two different sequences exactly one comes before the other, and no
/// sequence comes before itself.
pub proof fn lemma_lex_less_total(a: Seq<char>, b: Seq<char>)
    ensures
        !(lex_less(a, b) && lex_less(b, a)),
        a != b ==> lex_less(a, b) || lex_less(b, a),
        a == b ==> !lex_less(a, b),
    decreases a.len(),
{
    if a.len() > 0 && b.len() > 0 {
        if a.first() == b.first() {
            lemma_lex_less_total(a.drop_first(), b.drop_first());
            if a.drop_first() == b.drop_first() {
                assert(a =~= seq![a.first()] + a.drop_first());
                assert(b =~= seq![b.first()] + b.drop_first());
            }
        }
    } else if a.len() == 0 && b.len() == 0 {
        assert(a =~= b);
    }
}

/// Ranking before is transitive and never holds both ways.
pub proof fn lemma_precedes_order(a: Scored, b: Scored, c: Scored)
    ensures
        !(precedes(a, b) && precedes(b, a)),
        precedes(a, b) && precedes(b, c) ==> precedes(a, c),
{
    lemma_lex_less_total(a.document_id@, b.document_id@);
    if precedes(a, b) && precedes(b, c) && a.score == b.score && b.score == c.score {
        lemma_lex_less_transitive(a.document_id@, b.document_id@, c.document_id@);
    }
}

/// Of two entries with different ids one ranks before the other.
pub proof fn lemma_precedes_total(a: Scored, b: Scored)
    requires
        a.document_id@ != b.document_id@,
    ensures
        precedes(a, b) || precedes(b, a),
{
    lemma_lex_less_total(a.document_id@, b.document_id@);
}

/// Where `placed` puts an entry.
pub open spec fn place_of(ranked: Seq<Scored>, entry: Scored) -> int
    decreases ranked.len(),
{
    if ranked.len() == 0 || precedes(ranked.last(), entry) {
        ranked.len() as int
    } else {
        place_of(ranked.drop_last(), entry)
    }
}

/// `placed` inserts the entry at `place_of`: behind an element that precedes
/// it, and in front of elements that do not.
pub proof fn lemma_place_of(ranked: Seq<Scored>, entry: Scored)
    ensures
        0 <= place_of(ranked, entry) <= ranked.len(),
        placed(ranked, entry) == ranked.insert(place_of(ranked, entry), entry),
        place_of(ranked, entry) == 0 || precedes(ranked[place_of(ranked, entry) - 1], entry),
        forall|j: int| place_of(ranked, entry) <= j < ranked.len() ==> !precedes(ranked[j], entry),
    decreases ranked.len(),
{
    if ranked.len() > 0 && !precedes(ranked.last(), entry) {
        lemma_place_of(ranked.drop_last(), entry);
    }
    let at = place_of(ranked, entry);
    assert forall|j: int| at <= j < ranked.len() implies !precedes(ranked[j], entry) by {
        if j < ranked.len() - 1 {
            assert(ranked.drop_last()[j] == ranked[j]);
        }
    }
    if at > 0 && at < ranked.len() {
        assert(ranked.drop_last()[at - 1] == ranked[at - 1]);
    }
    lemma_placed_at(ranked, entry, at);
}

/// A ranking is in ranked order: no element is preceded by a later one.
pub proof fn lemma_ranking_is_ranked(entries: Seq<Scored>)
    ensures
        is_ranked(ranking(entries)),
    decreases entries.len(),
{
    if entries.len() > 0 {
        let before = ranking(entries.drop_last());
        let entry = entries.last();
        lemma_ranking_is_ranked(entries.drop_last());
        lemma_place_of(before, entry);
        let at = place_of(before, entry);
        let after = before.insert(at, entry);
        assert forall|i: int, j: int| 0 <= i < j < after.len() implies !precedes(
            after[j],
            after[i],
        ) by {
            if j == at {
                lemma_precedes_order(before[at - 1], entry, before[i]);
                lemma_precedes_order(entry, before[i], before[at - 1]);
                if i < at - 1 {
                    assert(!precedes(before[at - 1], before[i]));
                }
            } else if i == at {
                assert(after[j] == before[j - 1]);
            } else {
                let bi = if i < at { i } else { i - 1 };
                let bj = if j < at { j } else { j - 1 };
                assert(after[i] == before[bi]);
                assert(after[j] == before[bj]);
            }
        }
    }
}

/// A ranking holds exactly the entries it was made from, each as often.
pub proof fn lemma_ranking_is_permutation(entries: Seq<Scored>)
    ensures
        ranking(entries).to_multiset() == entries.to_multiset(),
    decreases entries.len(),
{
    broadcast use vstd::seq_lib::to_multiset_build, vstd::seq_lib::to_multiset_insert;

    if entries.len() > 0 {
        let before = ranking(entries.drop_last());
        let entry = entries.last();
        lemma_ranking_is_permutation(entries.drop_last());
        lemma_place_of(before, entry);
        assert(entries =~= entries.drop_last().push(entry));
    } else {
        assert(ranking(entries) =~= entries);
    }
}

/// No entry that a cut-off ranking leaves out precedes one that it keeps.
pub proof fn lemma_top_k_best(entries: Seq<Scored>, top_k: int, kept: int, left_out: int)
    requires
        0 <= kept < top_k <= left_out < entries.len(),
    ensures
        ranking(entries).take(top_k)[kept] == ranking(entries)[kept],
        !precedes(ranking(entries)[left_out], ranking(entries)[kept]),
{
    lemma_ranking_len(entries);
    lemma_ranking_is_ranked(entries);
}

/// The bit at which a sign-and-magnitude pattern of 64 bits holds its sign.
pub const SIGN_BIT: u64 = 0x8000_0000_0000_0000;

/// Whether the pattern `a` denotes a number below that of `b`, when both are
/// read as a sign bit followed by a magnitude: a negative number is below
/// every other, two others compare by magnitude, and two negative ones the
/// other way round. Double-precision numbers are ordered so by their bits.
pub open spec fn pattern_less(a: u64, b: u64) -> bool {
    if a >= SIGN_BIT {
        b < SIGN_BIT || b < a
    } else {
        b < SIGN_BIT && a < b
    }
}

/// The integer that stands for the pattern `bits` in a ranking.
pub open spec fn key_of(bits: u64) -> int {
    if bits >= SIGN_BIT {
        SIGN_BIT - 1 - bits
    } else {
        bits as int
    }
}

/// An integer score that orders as the number with the pattern `bits` does.
pub fn score_key(bits: u64) -> (key: i64)
    ensures
        key == key_of(bits),
{
    if bits >= SIGN_BIT {
        -1 - ((bits - SIGN_BIT) as i64)
    } else {
        bits as i64
    }
}

/// The pattern that `score_key` made `key` from.
pub fn key_bits(key: i64) -> (bits: u64)
    ensures
        key_of(bits) == key,
{
    if key < 0 {
        ((-1 - key) as u64) + SIGN_BIT
    } else {
        key as u64
    }
}

/// Keys compare as the patterns they stand for, and different patterns have
/// different keys.
pub proof fn lemma_key_order(a: u64, b: u64)
    ensures
        key_of(a) < key_of(b) <==> pattern_less(a, b),
        key_of(a) == key_of(b) <==> a == b,
        i64::MIN <= key_of(a) <= i64::MAX,
{
}

} // verus!
