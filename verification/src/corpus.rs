//! What a set of documents determines: the postings an index of them must
//! hold and the total number of their tokens.
//!
//! A corpus is a map from document id to text. Everything here is
//! specification and proof; the store uses it to state that its index always
//! agrees with its documents.

use crate::index::{added, list_of, removed};
use crate::terms::{distinct, lemma_distinct_contains, occurrences};
use crate::tokenizer::tokens_of;
use vstd::prelude::*;

verus! {

/// Whether the document `id` of `corpus` contains `token`.
pub open spec fn mentions(
    corpus: Map<Seq<char>, Seq<char>>,
    id: Seq<char>,
    token: Seq<char>,
) -> bool {
    corpus.contains_key(id) && tokens_of(corpus[id]).contains(token)
}

/// The postings of a corpus: under each token that some document contains,
/// every document that contains it, with the number of occurrences.
pub open spec fn corpus_postings(corpus: Map<Seq<char>, Seq<char>>) -> Map<
    Seq<char>,
    Map<Seq<char>, usize>,
> {
    Map::new(
        |token: Seq<char>| exists|id: Seq<char>| mentions(corpus, id, token),
        |token: Seq<char>|
            Map::new(
                |id: Seq<char>| mentions(corpus, id, token),
                |id: Seq<char>| occurrences(tokens_of(corpus[id]), token) as usize,
            ),
    )
}

/// In how many documents of `corpus` the token occurs: the size of its
/// posting list.
pub open spec fn document_frequency(corpus: Map<Seq<char>, Seq<char>>, token: Seq<char>) -> nat {
    list_of(corpus_postings(corpus), token).dom().len()
}

/// How many of the documents `ids` contain the token.
pub open spec fn mention_count(
    corpus: Map<Seq<char>, Seq<char>>,
    ids: Seq<Seq<char>>,
    token: Seq<char>,
) -> nat
    decreases ids.len(),
{
    if ids.len() == 0 {
        0
    } else {
        mention_count(corpus, ids.drop_last(), token) + if mentions(corpus, ids.last(), token) {
            1nat
        } else {
            0nat
        }
    }
}

/// The number of tokens in all of `texts` together.
pub open spec fn token_total(texts: Seq<Seq<char>>) -> nat
    decreases texts.len(),
{
    if texts.len() == 0 {
        0
    } else {
        token_total(texts.drop_last()) + tokens_of(texts.last()).len()
    }
}

/// Adding a new document to an index of a corpus gives the index of the
/// corpus with that document.
pub proof fn lemma_added_document(corpus: Map<Seq<char>, Seq<char>>, id: Seq<char>, text: Seq<char>)
    requires
        !corpus.contains_key(id),
    ensures
        added(corpus_postings(corpus), id, tokens_of(text)) == corpus_postings(
            corpus.insert(id, text),
        ),
{
    let tokens = tokens_of(text);
    let before = corpus_postings(corpus);
    let grown = corpus.insert(id, text);
    let left = added(before, id, tokens);
    let right = corpus_postings(grown);
    assert forall|token: Seq<char>| left.contains_key(token) <==> right.contains_key(token) by {
        lemma_distinct_contains(tokens, token);
        if left.contains_key(token) {
            if distinct(tokens).contains(token) {
                assert(mentions(grown, id, token));
            } else {
                let d = choose|d: Seq<char>| mentions(corpus, d, token);
                assert(mentions(grown, d, token));
            }
        }
        if right.contains_key(token) {
            let d = choose|d: Seq<char>| mentions(grown, d, token);
            if d != id {
                assert(mentions(corpus, d, token));
            }
        }
    }
    assert forall|token: Seq<char>| left.contains_key(token) implies #[trigger] left[token]
        =~= right[token] by {
        lemma_distinct_contains(tokens, token);
        assert forall|d: Seq<char>| left[token].contains_key(d) <==> right[token].contains_key(
            d,
        ) by {
            if d != id {
                if mentions(corpus, d, token) {
                    assert(before.contains_key(token));
                }
            }
        }
    }
    assert(left =~= right);
}

/// Removing a document from an index of a corpus gives the index of the
/// corpus without that document.
pub proof fn lemma_removed_document(corpus: Map<Seq<char>, Seq<char>>, id: Seq<char>)
    requires
        corpus.contains_key(id),
    ensures
        removed(corpus_postings(corpus), id, tokens_of(corpus[id])) == corpus_postings(
            corpus.remove(id),
        ),
{
    let tokens = tokens_of(corpus[id]);
    let before = corpus_postings(corpus);
    let shrunk = corpus.remove(id);
    let left = removed(before, id, tokens);
    let right = corpus_postings(shrunk);
    assert forall|token: Seq<char>| left.contains_key(token) <==> right.contains_key(token) by {
        lemma_distinct_contains(tokens, token);
        if left.contains_key(token) {
            if distinct(tokens).contains(token) {
                let rest = before[token].remove(id);
                assert(!rest.is_empty());
                assert(exists|d: Seq<char>| rest.dom().contains(d)) by {
                    if forall|d: Seq<char>| !rest.dom().contains(d) {
                        assert(rest.dom() =~= Set::<Seq<char>>::empty());
                    }
                }
                let d = choose|d: Seq<char>| rest.dom().contains(d);
                assert(mentions(shrunk, d, token));
            } else {
                let d = choose|d: Seq<char>| mentions(corpus, d, token);
                assert(mentions(shrunk, d, token));
            }
        }
        if right.contains_key(token) {
            let d = choose|d: Seq<char>| mentions(shrunk, d, token);
            assert(mentions(corpus, d, token));
            assert(before[token].remove(id).dom().contains(d));
        }
    }
    assert forall|token: Seq<char>| left.contains_key(token) implies #[trigger] left[token]
        =~= right[token] by {
        lemma_distinct_contains(tokens, token);
    }
    assert(left =~= right);
}

/// One more text adds its tokens to the total.
pub proof fn lemma_total_push(texts: Seq<Seq<char>>, text: Seq<char>)
    ensures
        token_total(texts.push(text)) == token_total(texts) + tokens_of(text).len(),
{
    assert(texts.push(text).drop_last() =~= texts);
}

/// Taking the text at `i` out takes its tokens from the total.
pub proof fn lemma_total_remove(texts: Seq<Seq<char>>, i: int)
    requires
        0 <= i < texts.len(),
    ensures
        token_total(texts.remove(i)) + tokens_of(texts[i]).len() == token_total(texts),
    decreases texts.len(),
{
    if i == texts.len() - 1 {
        assert(texts.remove(i) =~= texts.drop_last());
    } else {
        lemma_total_remove(texts.drop_last(), i);
        assert(texts.remove(i).drop_last() =~= texts.drop_last().remove(i));
        assert(texts.remove(i).last() == texts.last());
    }
}

/// Replacing the text at `i` exchanges its tokens in the total.
pub proof fn lemma_total_update(texts: Seq<Seq<char>>, i: int, text: Seq<char>)
    requires
        0 <= i < texts.len(),
    ensures
        token_total(texts.update(i, text)) + tokens_of(texts[i]).len() == token_total(texts)
            + tokens_of(text).len(),
    decreases texts.len(),
{
    if i == texts.len() - 1 {
        assert(texts.update(i, text).drop_last() =~= texts.drop_last());
    } else {
        lemma_total_update(texts.drop_last(), i, text);
        assert(texts.update(i, text).drop_last() =~= texts.drop_last().update(i, text));
    }
}

/// When no text has more than `limit` tokens, the total is at most `limit`
/// for each text.
pub proof fn lemma_total_bound(texts: Seq<Seq<char>>, limit: nat)
    requires
        forall|i: int| 0 <= i < texts.len() ==> tokens_of(#[trigger] texts[i]).len() <= limit,
    ensures
        token_total(texts) <= texts.len() * limit,
    decreases texts.len(),
{
    if texts.len() > 0 {
        lemma_total_bound(texts.drop_last(), limit);
        assert(texts.drop_last().len() * limit + limit == texts.len() * limit) by (nonlinear_arith)
            requires
                texts.drop_last().len() + 1 == texts.len(),
        ;
    }
}

/// The postings of a corpus hold a token exactly when some document
/// contains it, and then list exactly the documents that do, each with the
/// number of occurrences.
pub proof fn lemma_corpus_postings(
    corpus: Map<Seq<char>, Seq<char>>,
    token: Seq<char>,
    id: Seq<char>,
)
    ensures
        corpus_postings(corpus).contains_key(token) <==> exists|d: Seq<char>|
            mentions(corpus, d, token),
        mentions(corpus, id, token) <==> corpus_postings(corpus).contains_key(token)
            && corpus_postings(corpus)[token].contains_key(id),
        mentions(corpus, id, token) ==> corpus_postings(corpus)[token][id] == occurrences(
            tokens_of(corpus[id]),
            token,
        ) as usize,
{
}

/// After a document is replaced, a token that only its old text contained is
/// gone from the postings, and every token of the new text lists the
/// document with its number of occurrences in the new text.
pub proof fn lemma_replace_retracts(
    corpus: Map<Seq<char>, Seq<char>>,
    id: Seq<char>,
    text: Seq<char>,
    token: Seq<char>,
)
    ensures
        !tokens_of(text).contains(token) && (forall|d: Seq<char>|
            d != id ==> !mentions(corpus, d, token)) ==> !corpus_postings(
            corpus.insert(id, text),
        ).contains_key(token),
        tokens_of(text).contains(token) ==> {
            let postings = corpus_postings(corpus.insert(id, text));
            &&& postings.contains_key(token)
            &&& postings[token].contains_key(id)
            &&& postings[token][id] == occurrences(tokens_of(text), token) as usize
        },
{
    let after = corpus.insert(id, text);
    if tokens_of(text).contains(token) {
        assert(mentions(after, id, token));
    }
    if corpus_postings(after).contains_key(token) {
        let d = choose|d: Seq<char>| mentions(after, d, token);
        if d != id {
            assert(mentions(corpus, d, token));
        }
    }
}

/// Among pairwise different ids, those that contain the token form a finite
/// set of `mention_count` elements.
proof fn lemma_mention_set(corpus: Map<Seq<char>, Seq<char>>, ids: Seq<Seq<char>>, token: Seq<char>)
    requires
        ids.no_duplicates(),
    ensures
        Set::new(|d: Seq<char>| ids.contains(d) && mentions(corpus, d, token)).finite(),
        Set::new(|d: Seq<char>| ids.contains(d) && mentions(corpus, d, token)).len()
            == mention_count(corpus, ids, token),
    decreases ids.len(),
{
    let all = Set::new(|d: Seq<char>| ids.contains(d) && mentions(corpus, d, token));
    if ids.len() == 0 {
        assert(all =~= Set::<Seq<char>>::empty());
    } else {
        let rest = ids.drop_last();
        let last = ids.last();
        let fewer = Set::new(|d: Seq<char>| rest.contains(d) && mentions(corpus, d, token));
        lemma_mention_set(corpus, rest, token);
        assert forall|d: Seq<char>| ids.contains(d) <==> (d == last || rest.contains(d)) by {
            if rest.contains(d) {
                let k = choose|k: int| 0 <= k < rest.len() && rest[k] == d;
                assert(ids[k] == d);
            }
            if ids.contains(d) {
                let k = choose|k: int| 0 <= k < ids.len() && ids[k] == d;
                if k < rest.len() {
                    assert(rest[k] == d);
                }
            }
            if d == last {
                assert(ids[ids.len() - 1] == d);
            }
        }
        assert(!rest.contains(last)) by {
            if rest.contains(last) {
                let k = choose|k: int| 0 <= k < rest.len() && rest[k] == last;
                assert(ids[k] == ids[ids.len() - 1]);
            }
        }
        if mentions(corpus, last, token) {
            assert(all =~= fewer.insert(last));
        } else {
            assert(all =~= fewer);
        }
    }
}

/// The document frequency of a token is the number of stored documents that
/// contain it.
pub proof fn lemma_document_frequency(
    corpus: Map<Seq<char>, Seq<char>>,
    ids: Seq<Seq<char>>,
    token: Seq<char>,
)
    requires
        ids.no_duplicates(),
        forall|d: Seq<char>| corpus.contains_key(d) <==> ids.contains(d),
    ensures
        list_of(corpus_postings(corpus), token).dom().finite(),
        document_frequency(corpus, token) == mention_count(corpus, ids, token),
{
    let all = Set::new(|d: Seq<char>| ids.contains(d) && mentions(corpus, d, token));
    lemma_mention_set(corpus, ids, token);
    assert(list_of(corpus_postings(corpus), token).dom() =~= all);
}

} // verus!
