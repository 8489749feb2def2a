//! Answering a query from the store.
//!
//! A query is tokenized like a document. Every stored document that contains
//! at least one of the query's tokens becomes a candidate, listed with the
//! counts from which a relevance score is computed: for each query token that
//! it contains, the term frequency in the document and the document frequency
//! in the corpus, and the document's length. A search scores every candidate
//! with the function it is given, ranks the candidates by score and keeps the
//! best.

use crate::corpus::{corpus_postings, document_frequency, mentions};
use crate::documents::DocumentStore;
use crate::index::IndexStats;
use crate::ranking::{
    is_ranked, lemma_ranking_is_permutation, lemma_ranking_is_ranked, lemma_ranking_len, rank,
    ranking, Scored,
};
use crate::terms::{
    counted_tokens, distinct, lemma_distinct_contains, lemma_occurrences_bound, occurrences,
    term_counts, TermCount,
};
use crate::tokenizer::{tokenize, tokens_of};
use vstd::prelude::*;

verus! {

/// The counts for one query token that a document contains.
#[derive(Clone, Copy, Debug, PartialEq, Eq)]
pub struct TermMatch {
    /// How often the token occurs in the document.
    pub term_frequency: usize,
    /// How many documents of the corpus contain the token.
    pub document_frequency: usize,
}

/// A document that matches a query.
#[derive(Clone, Debug)]
pub struct Candidate {
    pub document_id: String,
    /// The number of tokens in the document.
    pub document_length: usize,
    /// One entry for each distinct query token that the document contains,
    /// in the order in which the tokens first occur in the query.
    pub matches: Vec<TermMatch>,
}

/// What a [`Candidate`] says.
pub ghost struct CandidateView {
    pub document_id: Seq<char>,
    pub document_length: nat,
    pub matches: Seq<TermMatch>,
}

impl DeepView for Candidate {
    type V = CandidateView;

    open spec fn deep_view(&self) -> CandidateView {
        CandidateView {
            document_id: self.document_id@,
            document_length: self.document_length as nat,
            matches: self.matches@,
        }
    }
}

/// The counts for each token of `query` that occurs in `tokens`, in the
/// order of `query`.
pub open spec fn term_matches(
    corpus: Map<Seq<char>, Seq<char>>,
    tokens: Seq<Seq<char>>,
    query: Seq<Seq<char>>,
) -> Seq<TermMatch>
    decreases query.len(),
{
    if query.len() == 0 {
        Seq::empty()
    } else {
        let before = term_matches(corpus, tokens, query.drop_last());
        let token = query.last();
        if tokens.contains(token) {
            before.push(
                TermMatch {
                    term_frequency: occurrences(tokens, token) as usize,
                    document_frequency: document_frequency(corpus, token) as usize,
                },
            )
        } else {
            before
        }
    }
}

/// The candidates among the documents `ids` of `corpus` for the tokens of
/// `query`, in the order of `ids`.
pub open spec fn candidates_of(
    corpus: Map<Seq<char>, Seq<char>>,
    ids: Seq<Seq<char>>,
    query: Seq<Seq<char>>,
) -> Seq<CandidateView>
    decreases ids.len(),
{
    if ids.len() == 0 {
        Seq::empty()
    } else {
        let before = candidates_of(corpus, ids.drop_last(), query);
        let tokens = tokens_of(corpus[ids.last()]);
        let matches = term_matches(corpus, tokens, query);
        if matches.len() > 0 {
            before.push(
                CandidateView {
                    document_id: ids.last(),
                    document_length: tokens.len(),
                    matches,
                },
            )
        } else {
            before
        }
    }
}

/// The counts for the query tokens `terms` in the document `document_id`.
fn match_terms(
    store: &DocumentStore,
    document_id: &String,
    terms: &Vec<TermCount>,
    frequencies: &Vec<usize>,
) -> (matches: Vec<TermMatch>)
    requires
        store.wf(),
        store@.contains_key(document_id@),
        tokens_of(store@[document_id@]).len() <= usize::MAX,
        frequencies.len() == terms.len(),
        forall|j: int|
            0 <= j < terms.len() ==> #[trigger] frequencies[j] == document_frequency(
                store@,
                terms[j].token@,
            ),
    ensures
        matches@ == term_matches(
            store@,
            tokens_of(store@[document_id@]),
            counted_tokens(terms@),
        ),
{
    let ghost tokens = tokens_of(store@[document_id@]);
    let ghost query = counted_tokens(terms@);
    let index = store.index();
    let mut matches: Vec<TermMatch> = Vec::new();
    let mut j: usize = 0;
    assert(query.take(0) =~= Seq::<Seq<char>>::empty());
    while j < terms.len()
        invariant
            j <= terms.len(),
            store.wf(),
            store@.contains_key(document_id@),
            tokens == tokens_of(store@[document_id@]),
            tokens.len() <= usize::MAX,
            query == counted_tokens(terms@),
            frequencies.len() == terms.len(),
            forall|k: int|
                0 <= k < terms.len() ==> #[trigger] frequencies[k] == document_frequency(
                    store@,
                    terms[k].token@,
                ),
            index.wf(),
            index.postings() == corpus_postings(store@),
            matches@ == term_matches(store@, tokens, query.take(j as int)),
        decreases terms.len() - j,
    {
        let term = &terms[j];
        let ghost token = term.token@;
        proof {
            assert(query.take(j + 1).drop_last() =~= query.take(j as int));
            assert(query.take(j + 1).last() == token);
            lemma_distinct_contains(tokens, token);
            lemma_occurrences_bound(tokens, token);
            if tokens.contains(token) {
                assert(mentions(store@, document_id@, token));
            }
        }
        let term_frequency = index.term_frequency_of(term.token.as_str(), document_id.as_str());
        if term_frequency > 0 {
            matches.push(TermMatch { term_frequency, document_frequency: frequencies[j] });
        }
        j += 1;
    }
    assert(query.take(j as int) =~= query);
    matches
}

/// The stored documents that contain at least one token of `query`, with the
/// counts that scoring needs, in the order in which the documents are stored.
pub fn candidates(store: &DocumentStore, query: &str) -> (found: Vec<Candidate>)
    requires
        store.wf(),
    ensures
        found.deep_view() == candidates_of(store@, store.ids(), distinct(tokens_of(query@))),
{
    let query_tokens = tokenize(query);
    let terms = term_counts(&query_tokens);
    let ghost wanted = distinct(tokens_of(query@));
    let index = store.index();
    let mut frequencies: Vec<usize> = Vec::new();
    let mut j: usize = 0;
    while j < terms.len()
        invariant
            j <= terms.len(),
            store.wf(),
            index.wf(),
            index.postings() == corpus_postings(store@),
            frequencies.len() == j,
            forall|k: int|
                0 <= k < j ==> #[trigger] frequencies[k] == document_frequency(
                    store@,
                    terms[k].token@,
                ),
        decreases terms.len() - j,
    {
        frequencies.push(index.document_frequency_of(terms[j].token.as_str()));
        j += 1;
    }
    let n = store.len();
    let mut found: Vec<Candidate> = Vec::new();
    let mut i: usize = 0;
    proof {
        store.lemma_corpus();
    }
    assert(store.ids().take(0) =~= Seq::<Seq<char>>::empty());
    assert(found.deep_view() =~= Seq::<CandidateView>::empty());
    while i < n
        invariant
            i <= n,
            n == store.ids().len(),
            store.wf(),
            wanted == counted_tokens(terms@),
            frequencies.len() == terms.len(),
            forall|k: int|
                0 <= k < terms.len() ==> #[trigger] frequencies[k] == document_frequency(
                    store@,
                    terms[k].token@,
                ),
            found.deep_view() == candidates_of(store@, store.ids().take(i as int), wanted),
        decreases n - i,
    {
        let document = store.document_at(i);
        proof {
            store.lemma_corpus();
            assert(store.ids().take(i + 1).drop_last() =~= store.ids().take(i as int));
            assert(store.ids().take(i + 1).last() == document.id@);
            assert(store.ids().contains(store.ids()[i as int]));
            assert(store@[store.ids()[i as int]] == store.texts()[i as int]);
        }
        let matches = match_terms(store, &document.id, &terms, &frequencies);
        if matches.len() > 0 {
            let ghost before = found.deep_view();
            let candidate = Candidate {
                document_id: document.id.clone(),
                document_length: document.word_count,
                matches,
            };
            found.push(candidate);
            assert(found.deep_view() =~= before.push(candidate.deep_view()));
        }
        i += 1;
    }
    assert(store.ids().take(n as int) =~= store.ids());
    found
}

/// What each element of `found` says, in order.
pub open spec fn candidate_views(found: Seq<Candidate>) -> Seq<CandidateView> {
    Seq::new(found.len(), |i: int| found[i].deep_view())
}

/// Whether `scored` pairs each candidate of `found`, in order, with a score
/// that `score` can return for it.
pub open spec fn scored_by<F: Fn(&Candidate, IndexStats) -> i64>(
    score: F,
    stats: IndexStats,
    found: Seq<Candidate>,
    scored: Seq<Scored>,
) -> bool {
    &&& scored.len() == found.len()
    &&& forall|i: int|
        0 <= i < found.len() ==> {
            &&& (#[trigger] scored[i]).document_id@ == found[i].document_id@
            &&& call_ensures(score, (&found[i], stats), scored[i].score)
        }
}

/// Whether `hits` answers a search for the candidates `wanted`: there are
/// such candidates `found`, each scored by `score`, and `hits` is the
/// ranking of the scored candidates cut off after `top_k`.
pub open spec fn answers<F: Fn(&Candidate, IndexStats) -> i64>(
    score: F,
    stats: IndexStats,
    wanted: Seq<CandidateView>,
    top_k: usize,
    found: Seq<Candidate>,
    scored: Seq<Scored>,
    hits: Seq<Scored>,
) -> bool {
    &&& candidate_views(found) == wanted
    &&& scored_by(score, stats, found, scored)
    &&& hits == ranking(scored).take(
        if top_k <= scored.len() {
            top_k as int
        } else {
            scored.len() as int
        },
    )
}

/// The `top_k` best documents for `query`: every stored document that
/// contains a token of the query is scored by `score`, which gets the
/// candidate and the corpus-wide counts, and the scored documents are ranked,
/// best score first and equal scores by ascending id.
pub fn search<F: Fn(&Candidate, IndexStats) -> i64>(
    store: &DocumentStore,
    query: &str,
    top_k: usize,
    score: F,
) -> (hits: Vec<Scored>)
    requires
        store.wf(),
        forall|candidate: &Candidate, stats: IndexStats| call_requires(score, (candidate, stats)),
    ensures
        exists|found: Seq<Candidate>, scored: Seq<Scored>| #[trigger]
            answers(
                score,
                store.corpus_stats(),
                candidates_of(store@, store.ids(), distinct(tokens_of(query@))),
                top_k,
                found,
                scored,
                hits@,
            ),
{
    let stats = store.stats();
    let found = candidates(store, query);
    let mut scored: Vec<Scored> = Vec::new();
    let mut i: usize = 0;
    while i < found.len()
        invariant
            i <= found.len(),
            forall|candidate: &Candidate, stats: IndexStats|
                call_requires(score, (candidate, stats)),
            scored_by(score, stats, found@.take(i as int), scored@),
        decreases found.len() - i,
    {
        let candidate = &found[i];
        let key = score(candidate, stats);
        let ghost before = scored@;
        scored.push(Scored { document_id: candidate.document_id.clone(), score: key });
        proof {
            assert forall|k: int| 0 <= k < i + 1 implies {
                &&& (#[trigger] scored@[k]).document_id@ == found@.take(i + 1)[k].document_id@
                &&& call_ensures(score, (&found@.take(i + 1)[k], stats), scored@[k].score)
            } by {
                if k < i {
                    assert(scored@[k] == before[k]);
                    assert(found@.take(i as int)[k] == found@.take(i + 1)[k]);
                }
            }
        }
        i += 1;
    }
    let ghost pairs = scored@;
    let hits = rank(scored, top_k);
    proof {
        assert(found@.take(found.len() as int) =~= found@);
        assert(candidate_views(found@) =~= found.deep_view());
        assert(answers(
            score,
            store.corpus_stats(),
            candidates_of(store@, store.ids(), distinct(tokens_of(query@))),
            top_k,
            found@,
            pairs,
            hits@,
        ));
    }
    hits
}

/// A document that contains none of the query's tokens has no counts.
pub proof fn lemma_no_term_matches(
    corpus: Map<Seq<char>, Seq<char>>,
    tokens: Seq<Seq<char>>,
    query: Seq<Seq<char>>,
)
    requires
        forall|j: int| 0 <= j < query.len() ==> !tokens.contains(#[trigger] query[j]),
    ensures
        term_matches(corpus, tokens, query) == Seq::<TermMatch>::empty(),
    decreases query.len(),
{
    if query.len() > 0 {
        assert forall|j: int| 0 <= j < query.drop_last().len() implies !tokens.contains(
            #[trigger] query.drop_last()[j],
        ) by {
            assert(query.drop_last()[j] == query[j]);
        }
        lemma_no_term_matches(corpus, tokens, query.drop_last());
        assert(query.last() == query[query.len() - 1]);
    }
}

/// A query none of whose tokens occurs in any document has no candidates.
pub proof fn lemma_unknown_tokens(
    corpus: Map<Seq<char>, Seq<char>>,
    ids: Seq<Seq<char>>,
    query: Seq<Seq<char>>,
)
    requires
        forall|i: int, j: int|
            0 <= i < ids.len() && 0 <= j < query.len() ==> !tokens_of(
                corpus[#[trigger] ids[i]],
            ).contains(#[trigger] query[j]),
    ensures
        candidates_of(corpus, ids, query) == Seq::<CandidateView>::empty(),
    decreases ids.len(),
{
    if ids.len() > 0 {
        assert forall|i: int, j: int|
            0 <= i < ids.drop_last().len() && 0 <= j < query.len() implies !tokens_of(
            corpus[#[trigger] ids.drop_last()[i]],
        ).contains(#[trigger] query[j]) by {
            assert(ids.drop_last()[i] == ids[i]);
        }
        lemma_unknown_tokens(corpus, ids.drop_last(), query);
        let tokens = tokens_of(corpus[ids.last()]);
        assert forall|j: int| 0 <= j < query.len() implies !tokens.contains(
            #[trigger] query[j],
        ) by {
            assert(ids.last() == ids[ids.len() - 1]);
        }
        lemma_no_term_matches(corpus, tokens, query);
    }
}

/// A query without tokens has no candidates.
pub proof fn lemma_empty_query(corpus: Map<Seq<char>, Seq<char>>, ids: Seq<Seq<char>>)
    ensures
        candidates_of(corpus, ids, Seq::<Seq<char>>::empty()) == Seq::<CandidateView>::empty(),
{
    lemma_unknown_tokens(corpus, ids, Seq::<Seq<char>>::empty());
}

/// Against no documents every query has no candidates.
pub proof fn lemma_empty_corpus(corpus: Map<Seq<char>, Seq<char>>, query: Seq<Seq<char>>)
    ensures
        candidates_of(corpus, Seq::<Seq<char>>::empty(), query) == Seq::<CandidateView>::empty(),
{
}

/// Every candidate is a listed document that contains a token of the query,
/// and it carries at least one count.
pub proof fn lemma_candidates_match(
    corpus: Map<Seq<char>, Seq<char>>,
    ids: Seq<Seq<char>>,
    query: Seq<Seq<char>>,
    k: int,
)
    requires
        0 <= k < candidates_of(corpus, ids, query).len(),
    ensures
        ids.contains(candidates_of(corpus, ids, query)[k].document_id),
        candidates_of(corpus, ids, query)[k].matches.len() > 0,
        candidates_of(corpus, ids, query)[k].matches == term_matches(
            corpus,
            tokens_of(corpus[candidates_of(corpus, ids, query)[k].document_id]),
            query,
        ),
    decreases ids.len(),
{
    if ids.len() > 0 {
        let before = candidates_of(corpus, ids.drop_last(), query);
        if k < before.len() {
            lemma_candidates_match(corpus, ids.drop_last(), query, k);
            let id = before[k].document_id;
            let at = choose|at: int| 0 <= at < ids.drop_last().len() && ids.drop_last()[at] == id;
            assert(ids[at] == id);
        } else {
            assert(ids[ids.len() - 1] == ids.last());
        }
    }
}

/// Whether `id` is the id of one of the candidates.
pub open spec fn is_candidate(wanted: Seq<CandidateView>, id: Seq<char>) -> bool {
    exists|i: int| 0 <= i < wanted.len() && (#[trigger] wanted[i]).document_id == id
}

/// An answer holds as many hits as there are candidates, but no more than
/// `top_k`; the hits are in ranked order; and every hit is a candidate.
pub proof fn lemma_answer_shape<F: Fn(&Candidate, IndexStats) -> i64>(
    score: F,
    stats: IndexStats,
    wanted: Seq<CandidateView>,
    top_k: usize,
    found: Seq<Candidate>,
    scored: Seq<Scored>,
    hits: Seq<Scored>,
)
    requires
        answers(score, stats, wanted, top_k, found, scored, hits),
    ensures
        hits.len() == if top_k <= wanted.len() {
            top_k as nat
        } else {
            wanted.len()
        },
        is_ranked(hits),
        forall|k: int|
            0 <= k < hits.len() ==> is_candidate(wanted, (#[trigger] hits[k]).document_id@),
{
    lemma_ranking_len(scored);
    lemma_ranking_is_ranked(scored);
    lemma_ranking_is_permutation(scored);
    let full = ranking(scored);
    assert forall|k: int| 0 <= k < hits.len() implies is_candidate(
        wanted,
        (#[trigger] hits[k]).document_id@,
    ) by {
        broadcast use vstd::seq_lib::to_multiset_contains;

        assert(hits[k] == full[k]);
        assert(full.contains(full[k]));
        assert(full.to_multiset().contains(full[k]));
        assert(scored.contains(full[k]));
        let i = choose|i: int| 0 <= i < scored.len() && scored[i] == full[k];
        assert(wanted[i] == found[i].deep_view());
        assert(scored[i].document_id@ == found[i].document_id@);
    }
}

/// A search without candidates has no hits.
pub proof fn lemma_no_candidates_no_hits<F: Fn(&Candidate, IndexStats) -> i64>(
    score: F,
    stats: IndexStats,
    top_k: usize,
    found: Seq<Candidate>,
    scored: Seq<Scored>,
    hits: Seq<Scored>,
)
    requires
        answers(score, stats, Seq::<CandidateView>::empty(), top_k, found, scored, hits),
    ensures
        hits == Seq::<Scored>::empty(),
{
    lemma_answer_shape(score, stats, Seq::<CandidateView>::empty(), top_k, found, scored, hits);
    assert(hits =~= Seq::<Scored>::empty());
}

} // verus!
