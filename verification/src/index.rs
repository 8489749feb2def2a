//! The inverted index: for every token, the documents that contain it and how
//! often, together with the corpus-wide counts that scoring needs.

use crate::string_map::StringMap;
use crate::terms::{
    counted_tokens, distinct, lemma_distinct_contains, lemma_distinct_no_duplicates, occurrences,
    term_counts,
};
use vstd::prelude::*;

verus! {

/// One token's occurrence count within one document.
#[derive(Clone, Debug)]
pub struct Posting {
    pub document_id: String,
    pub term_frequency: usize,
}

/// Corpus-wide counts.
#[derive(Clone, Copy, Debug, PartialEq, Eq)]
pub struct IndexStats {
    /// The number of indexed documents.
    pub total_documents: usize,
    /// The sum of the token counts of all indexed documents.
    pub total_token_count: u128,
}

/// The inverted index.
pub struct InvertedIndex {
    lists: StringMap<StringMap<usize>>,
    total_documents: usize,
    total_token_count: u128,
}

/// The posting list of `token` in `postings`; empty when the token is unknown.
pub open spec fn list_of(
    postings: Map<Seq<char>, Map<Seq<char>, usize>>,
    token: Seq<char>,
) -> Map<Seq<char>, usize> {
    if postings.contains_key(token) {
        postings[token]
    } else {
        Map::empty()
    }
}

/// `postings` after the posting of `document_id` under `token` is set to
/// `term_frequency`.
pub open spec fn with_posting(
    postings: Map<Seq<char>, Map<Seq<char>, usize>>,
    token: Seq<char>,
    document_id: Seq<char>,
    term_frequency: usize,
) -> Map<Seq<char>, Map<Seq<char>, usize>> {
    postings.insert(token, list_of(postings, token).insert(document_id, term_frequency))
}

/// `postings` after the posting of `document_id` under `token` is deleted,
/// and the whole list with it when nothing else is left in it.
pub open spec fn without_posting(
    postings: Map<Seq<char>, Map<Seq<char>, usize>>,
    token: Seq<char>,
    document_id: Seq<char>,
) -> Map<Seq<char>, Map<Seq<char>, usize>> {
    if !postings.contains_key(token) {
        postings
    } else if postings[token].remove(document_id).is_empty() {
        postings.remove(token)
    } else {
        postings.insert(token, postings[token].remove(document_id))
    }
}

/// The document ids of a list of postings, in order.
pub open spec fn posting_ids(postings: Seq<Posting>) -> Seq<Seq<char>> {
    Seq::new(postings.len(), |i: int| postings[i].document_id@)
}

/// The map from document id to term frequency that a list of postings with
/// pairwise different ids spells.
pub open spec fn posting_map(postings: Seq<Posting>) -> Map<Seq<char>, usize> {
    Map::new(
        |id: Seq<char>| posting_ids(postings).contains(id),
        |id: Seq<char>| postings[posting_ids(postings).index_of(id)].term_frequency,
    )
}

/// `postings` after a document with the given tokens is added: under every
/// token that occurs in `tokens`, the posting of `document_id` is set to the
/// number of occurrences; the other lists stay as they are.
pub open spec fn added(
    postings: Map<Seq<char>, Map<Seq<char>, usize>>,
    document_id: Seq<char>,
    tokens: Seq<Seq<char>>,
) -> Map<Seq<char>, Map<Seq<char>, usize>> {
    added_among(postings, document_id, tokens, distinct(tokens))
}

/// `postings` after a document with the given tokens is removed: under every
/// token that occurs in `tokens`, the posting of `document_id` is deleted, and
/// a list that is left empty goes with it; the other lists stay as they are.
pub open spec fn removed(
    postings: Map<Seq<char>, Map<Seq<char>, usize>>,
    document_id: Seq<char>,
    tokens: Seq<Seq<char>>,
) -> Map<Seq<char>, Map<Seq<char>, usize>> {
    removed_among(postings, document_id, distinct(tokens))
}

/// As [`added`], for the tokens in `listed` only.
pub open spec fn added_among(
    postings: Map<Seq<char>, Map<Seq<char>, usize>>,
    document_id: Seq<char>,
    tokens: Seq<Seq<char>>,
    listed: Seq<Seq<char>>,
) -> Map<Seq<char>, Map<Seq<char>, usize>> {
    Map::new(
        |token: Seq<char>| postings.contains_key(token) || listed.contains(token),
        |token: Seq<char>|
            if listed.contains(token) {
                list_of(postings, token).insert(document_id, occurrences(tokens, token) as usize)
            } else {
                postings[token]
            },
    )
}

/// As [`removed`], for the tokens in `listed` only.
pub open spec fn removed_among(
    postings: Map<Seq<char>, Map<Seq<char>, usize>>,
    document_id: Seq<char>,
    listed: Seq<Seq<char>>,
) -> Map<Seq<char>, Map<Seq<char>, usize>> {
    Map::new(
        |token: Seq<char>|
            postings.contains_key(token) && !(listed.contains(token) && postings[token].remove(
                document_id,
            ).is_empty()),
        |token: Seq<char>|
            if listed.contains(token) {
                postings[token].remove(document_id)
            } else {
                postings[token]
            },
    )
}

/// A posting list as the index keeps it: no document twice, at least one
/// document, and no term frequency of zero.
pub open spec fn sound_list(list: StringMap<usize>) -> bool {
    &&& list.wf()
    &&& list.keys().len() > 0
    &&& forall|j: int| 0 <= j < list.values().len() ==> #[trigger] list.values()[j] >= 1
}

impl InvertedIndex {
    /// The posting lists: token, then document id, then term frequency.
    pub closed spec fn postings(&self) -> Map<Seq<char>, Map<Seq<char>, usize>> {
        self.lists@.map_values(|list: StringMap<usize>| list@)
    }

    /// The number of indexed documents.
    pub closed spec fn total_documents(&self) -> nat {
        self.total_documents as nat
    }

    /// The sum of the token counts of all indexed documents.
    pub closed spec fn total_token_count(&self) -> nat {
        self.total_token_count as nat
    }

    /// The representation is sound: no token and no document is listed twice,
    /// no posting list is empty and no term frequency is zero.
    pub closed spec fn wf(&self) -> bool {
        &&& self.lists.wf()
        &&& forall|i: int|
            0 <= i < self.lists.values().len() ==> sound_list(#[trigger] self.lists.values()[i])
    }

    /// The posting list of `token`; empty when the token is unknown.
    pub open spec fn postings_of(&self, token: Seq<char>) -> Map<Seq<char>, usize> {
        list_of(self.postings(), token)
    }

    /// How often `token` occurs in the document `document_id`, as indexed.
    pub open spec fn frequency(&self, token: Seq<char>, document_id: Seq<char>) -> nat {
        if self.postings_of(token).contains_key(document_id) {
            self.postings_of(token)[document_id] as nat
        } else {
            0
        }
    }

    /// In how many documents `token` occurs, as indexed.
    pub open spec fn document_frequency(&self, token: Seq<char>) -> nat {
        self.postings_of(token).dom().len()
    }

    /// An index of no documents.
    pub fn new() -> (index: Self)
        ensures
            index.wf(),
            index.postings() == Map::<Seq<char>, Map<Seq<char>, usize>>::empty(),
            index.total_documents() == 0,
            index.total_token_count() == 0,
    {
        let index = InvertedIndex {
            lists: StringMap::new(),
            total_documents: 0,
            total_token_count: 0,
        };
        assert(index.postings() =~= Map::<Seq<char>, Map<Seq<char>, usize>>::empty());
        index
    }

    /// The corpus-wide counts.
    pub fn stats(&self) -> (stats: IndexStats)
        ensures
            stats.total_documents == self.total_documents(),
            stats.total_token_count == self.total_token_count(),
    {
        IndexStats {
            total_documents: self.total_documents,
            total_token_count: self.total_token_count,
        }
    }

    /// Sets the posting of `document_id` under `token`.
    fn record(&mut self, token: &String, document_id: &String, term_frequency: usize)
        requires
            old(self).wf(),
            term_frequency >= 1,
        ensures
            final(self).wf(),
            final(self).postings() == with_posting(
                old(self).postings(),
                token@,
                document_id@,
                term_frequency,
            ),
            final(self).total_documents() == old(self).total_documents(),
            final(self).total_token_count() == old(self).total_token_count(),
    {
        let ghost before = *self;
        match self.lists.find(token) {
            Some(i) => {
                proof {
                    before.lists.lemma_position(i as int);
                }
                let list = self.lists.value_at_mut(i);
                let ghost old_list = *list;
                list.insert(document_id.clone(), term_frequency);
                proof {
                    let new_list = self.lists.values()[i as int];
                    assert(new_list@ == old_list@.insert(document_id@, term_frequency));
                    assert forall|k: int| 0 <= k < self.lists.values().len() implies sound_list(
                        #[trigger] self.lists.values()[k],
                    ) by {
                        if k != i {
                            assert(self.lists.values()[k] == before.lists.values()[k]);
                        }
                    }
                    before.lists.lemma_update(&self.lists, i as int, new_list);
                    assert(self.postings() =~= with_posting(
                        before.postings(),
                        token@,
                        document_id@,
                        term_frequency,
                    ));
                }
            },
            None => {
                let mut list: StringMap<usize> = StringMap::new();
                list.insert(document_id.clone(), term_frequency);
                self.lists.insert(token.clone(), list);
                proof {
                    assert(list@ =~= Map::<Seq<char>, usize>::empty().insert(
                        document_id@,
                        term_frequency,
                    ));
                    assert forall|k: int| 0 <= k < self.lists.values().len() implies sound_list(
                        #[trigger] self.lists.values()[k],
                    ) by {
                        if k < before.lists.values().len() {
                            assert(self.lists.values()[k] == before.lists.values()[k]);
                        }
                    }
                    assert(self.postings() =~= with_posting(
                        before.postings(),
                        token@,
                        document_id@,
                        term_frequency,
                    ));
                }
            },
        }
    }

    /// Deletes the posting of `document_id` under `token`, and the token's
    /// list when it is left empty.
    fn retract(&mut self, token: &String, document_id: &String)
        requires
            old(self).wf(),
        ensures
            final(self).wf(),
            final(self).postings() == without_posting(old(self).postings(), token@, document_id@),
            final(self).total_documents() == old(self).total_documents(),
            final(self).total_token_count() == old(self).total_token_count(),
    {
        let ghost before = *self;
        match self.lists.find(token) {
            Some(i) => {
                proof {
                    before.lists.lemma_position(i as int);
                }
                let list = self.lists.value_at_mut(i);
                let ghost old_list = *list;
                list.remove(document_id);
                let remaining = list.len();
                let ghost middle = *self;
                proof {
                    let new_list = self.lists.values()[i as int];
                    before.lists.lemma_update(&self.lists, i as int, new_list);
                    assert(new_list@ == old_list@.remove(document_id@));
                    if old_list.contains_key(document_id@) {
                        old_list.lemma_held(document_id@);
                    }
                    assert forall|j: int| 0 <= j < new_list.values().len() implies (
                    #[trigger] new_list.values()[j]) >= 1 by {
                        if old_list.contains_key(document_id@) {
                            let p = old_list.position(document_id@);
                            assert(new_list.values()[j] == old_list.values()[if j < p {
                                j
                            } else {
                                j + 1
                            }]);
                        }
                    }
                    if new_list.keys().len() > 0 {
                        new_list.lemma_position(0);
                        assert(new_list@.dom().contains(new_list.keys()[0]));
                        assert(!new_list@.is_empty());
                    } else {
                        assert(new_list@.dom() =~= Set::<Seq<char>>::empty());
                    }
                }
                if remaining == 0 {
                    self.lists.remove(token);
                    proof {
                        assert forall|k: int| 0 <= k < self.lists.values().len() implies sound_list(
                        #[trigger] self.lists.values()[k],
                    ) by {
                            let b = if k < i { k } else { k + 1 };
                            assert(self.lists.values()[k] == middle.lists.values()[b]);
                            assert(middle.lists.values()[b] == before.lists.values()[b]);
                        }
                        assert(self.postings() =~= without_posting(
                            before.postings(),
                            token@,
                            document_id@,
                        ));
                    }
                } else {
                    proof {
                        assert forall|k: int| 0 <= k < self.lists.values().len() implies sound_list(
                        #[trigger] self.lists.values()[k],
                    ) by {
                            if k != i {
                                assert(self.lists.values()[k] == before.lists.values()[k]);
                            }
                        }
                        assert(self.postings() =~= without_posting(
                            before.postings(),
                            token@,
                            document_id@,
                        ));
                    }
                }
            },
            None => {},
        }
    }

    /// Indexes a document: under each distinct token of `tokens` the posting
    /// of `document_id` is set to the number of times the token occurs, and
    /// the document is counted.
    pub fn add(&mut self, document_id: &str, tokens: &Vec<String>)
        requires
            old(self).wf(),
            old(self).total_documents() < usize::MAX,
            old(self).total_token_count() + tokens.len() <= u128::MAX,
        ensures
            final(self).wf(),
            final(self).postings() == added(
                old(self).postings(),
                document_id@,
                tokens.deep_view(),
            ),
            final(self).total_documents() == old(self).total_documents() + 1,
            final(self).total_token_count() == old(self).total_token_count() + tokens.len(),
    {
        let ghost before = *self;
        let ghost all = tokens.deep_view();
        let id = document_id.to_owned();
        let counts = term_counts(tokens);
        let ghost listed = counted_tokens(counts@);
        let mut k: usize = 0;
        assert(self.postings() =~= added_among(before.postings(), id@, all, listed.take(0)));
        while k < counts.len()
            invariant
                k <= counts.len(),
                self.wf(),
                listed == counted_tokens(counts@),
                listed == distinct(all),
                all == tokens.deep_view(),
                forall|i: int|
                    0 <= i < counts.len() ==> (#[trigger] counts[i]).count == occurrences(
                        all,
                        counts[i].token@,
                    ),
                self.postings() == added_among(before.postings(), id@, all, listed.take(k as int)),
                self.total_documents() == before.total_documents(),
                self.total_token_count() == before.total_token_count(),
            decreases counts.len() - k,
        {
            let entry = &counts[k];
            let ghost token = entry.token@;
            let ghost middle = self.postings();
            proof {
                assert(listed[k as int] == token);
                lemma_distinct_contains(all, token);
                lemma_distinct_no_duplicates(all);
            }
            self.record(&entry.token, &id, entry.count);
            proof {
                let seen = listed.take(k as int);
                let next = listed.take(k + 1);
                assert(next =~= seen.push(token));
                assert(!seen.contains(token));
                assert forall|t: Seq<char>| next.contains(t) <==> (t == token || seen.contains(
                    t,
                )) by {
                    if seen.contains(t) {
                        let j = seen.index_of(t);
                        assert(next[j] == t);
                    }
                    if t == token {
                        assert(next[k as int] == t);
                    }
                }
                assert(self.postings() =~= added_among(before.postings(), id@, all, next));
            }
            k += 1;
        }
        assert(listed.take(k as int) =~= listed);
        self.total_documents = self.total_documents + 1;
        self.total_token_count = self.total_token_count + tokens.len() as u128;
    }

    /// Takes a document out of the index: under each distinct token of
    /// `tokens` the posting of `document_id` is deleted, a list that is left
    /// empty is dropped, and the document is no longer counted. `tokens` must
    /// be the tokens the document was added with.
    pub fn remove(&mut self, document_id: &str, tokens: &Vec<String>)
        requires
            old(self).wf(),
            old(self).total_documents() >= 1,
            old(self).total_token_count() >= tokens.len(),
        ensures
            final(self).wf(),
            final(self).postings() == removed(
                old(self).postings(),
                document_id@,
                tokens.deep_view(),
            ),
            final(self).total_documents() == old(self).total_documents() - 1,
            final(self).total_token_count() == old(self).total_token_count() - tokens.len(),
    {
        let ghost before = *self;
        let ghost all = tokens.deep_view();
        let id = document_id.to_owned();
        let counts = term_counts(tokens);
        let ghost listed = counted_tokens(counts@);
        let mut k: usize = 0;
        assert(self.postings() =~= removed_among(before.postings(), id@, listed.take(0)));
        while k < counts.len()
            invariant
                k <= counts.len(),
                self.wf(),
                listed == counted_tokens(counts@),
                listed == distinct(all),
                self.postings() == removed_among(before.postings(), id@, listed.take(k as int)),
                self.total_documents() == before.total_documents(),
                self.total_token_count() == before.total_token_count(),
            decreases counts.len() - k,
        {
            let entry = &counts[k];
            let ghost token = entry.token@;
            proof {
                assert(listed[k as int] == token);
                lemma_distinct_no_duplicates(all);
            }
            self.retract(&entry.token, &id);
            proof {
                let seen = listed.take(k as int);
                let next = listed.take(k + 1);
                assert(next =~= seen.push(token));
                assert(!seen.contains(token));
                assert forall|t: Seq<char>| next.contains(t) <==> (t == token || seen.contains(
                    t,
                )) by {
                    if seen.contains(t) {
                        let j = seen.index_of(t);
                        assert(next[j] == t);
                    }
                    if t == token {
                        assert(next[k as int] == t);
                    }
                }
                assert(self.postings() =~= removed_among(before.postings(), id@, next));
            }
            k += 1;
        }
        assert(listed.take(k as int) =~= listed);
        self.total_documents = self.total_documents - 1;
        self.total_token_count = self.total_token_count - tokens.len() as u128;
    }

    /// In a sound index every posting list is finite and not empty, and every
    /// term frequency in it is at least one.
    pub proof fn lemma_postings_sound(&self, token: Seq<char>)
        requires
            self.wf(),
            self.postings().contains_key(token),
        ensures
            self.postings()[token].dom().finite(),
            !self.postings()[token].is_empty(),
            forall|id: Seq<char>|
                self.postings()[token].contains_key(id) ==> #[trigger] self.postings()[token][id]
                    >= 1,
    {
        self.lists.lemma_held(token);
        let i = self.lists.position(token);
        self.lists.lemma_position(i);
        let list = self.lists.values()[i];
        assert(self.postings()[token] == list@);
        list.lemma_len();
        list.lemma_position(0);
        assert(list@.dom().contains(list.keys()[0]));
        assert forall|id: Seq<char>| list@.contains_key(id) implies #[trigger] list@[id] >= 1 by {
            list.lemma_held(id);
            let j = list.position(id);
            list.lemma_position(j);
            assert(list.values()[j] >= 1);
        }
    }

    /// The postings of `token`, one for each document that contains it.
    pub fn postings_for(&self, token: &str) -> (postings: Vec<Posting>)
        requires
            self.wf(),
        ensures
            posting_ids(postings@).no_duplicates(),
            posting_map(postings@) == self.postings_of(token@),
    {
        let key = token.to_owned();
        let mut postings: Vec<Posting> = Vec::new();
        match self.lists.get(&key) {
            Some(list) => {
                proof {
                    self.lists.lemma_held(token@);
                    self.lists.lemma_position(self.lists.position(token@));
                }
                let n = list.len();
                let mut j: usize = 0;
                assert(posting_ids(postings@) =~= list.keys().take(0));
                while j < n
                    invariant
                        j <= n,
                        n == list.keys().len(),
                        n == list.values().len(),
                        list.wf(),
                        postings.len() == j,
                        posting_ids(postings@) == list.keys().take(j as int),
                        forall|m: int|
                            0 <= m < j ==> (#[trigger] postings[m]).term_frequency
                                == list.values()[m],
                    decreases n - j,
                {
                    let ghost seen = postings@;
                    postings.push(
                        Posting {
                            document_id: list.key_at(j).clone(),
                            term_frequency: *list.value_at(j),
                        },
                    );
                    assert(posting_ids(postings@) =~= list.keys().take(j + 1)) by {
                        assert forall|m: int| 0 <= m < j implies posting_ids(postings@)[m]
                            == list.keys()[m] by {
                            assert(posting_ids(seen)[m] == list.keys().take(j as int)[m]);
                        }
                    }
                    assert forall|m: int| 0 <= m < j + 1 implies (
                    #[trigger] postings[m]).term_frequency == list.values()[m] by {
                        if m < j {
                            assert(postings[m] == seen[m]);
                        }
                    }
                    j += 1;
                }
                proof {
                    assert(list.keys().take(n as int) =~= list.keys());
                    assert forall|id: Seq<char>| list.keys().contains(id) implies (
                    #[trigger] posting_map(postings@)[id]) == list@[id] by {
                        let m = list.keys().index_of(id);
                        list.lemma_position(m);
                    }
                    assert(posting_map(postings@) =~= list@);
                }
            },
            None => {
                assert(posting_map(postings@) =~= Map::<Seq<char>, usize>::empty());
            },
        }
        postings
    }

    /// The number of documents that contain `token`.
    pub fn document_frequency_of(&self, token: &str) -> (n: usize)
        requires
            self.wf(),
        ensures
            n == self.document_frequency(token@),
    {
        let key = token.to_owned();
        match self.lists.get(&key) {
            Some(list) => {
                proof {
                    self.lists.lemma_held(token@);
                    self.lists.lemma_position(self.lists.position(token@));
                    list.lemma_len();
                }
                list.len()
            },
            None => 0,
        }
    }

    /// The number of times `token` occurs in the document `document_id`; zero
    /// when the index holds no such posting.
    pub fn term_frequency_of(&self, token: &str, document_id: &str) -> (n: usize)
        requires
            self.wf(),
        ensures
            n == self.frequency(token@, document_id@),
    {
        let key = token.to_owned();
        let id = document_id.to_owned();
        match self.lists.get(&key) {
            Some(list) => {
                proof {
                    self.lists.lemma_held(token@);
                    self.lists.lemma_position(self.lists.position(token@));
                }
                match list.get(&id) {
                    Some(n) => *n,
                    None => 0,
                }
            },
            None => 0,
        }
    }
}

} // verus!
