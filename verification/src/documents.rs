//! Documents and the store that keeps them together with their index.
//!
//! The store owns both the documents and the inverted index, and every
//! operation that changes one changes the other in the same call, so that a
//! reader never sees them disagree.

use crate::corpus::{
    corpus_postings, lemma_added_document, lemma_removed_document, lemma_total_bound,
    lemma_total_push, lemma_total_remove, lemma_total_update, token_total,
};
use crate::index::{IndexStats, InvertedIndex};
use crate::string_map::StringMap;
use crate::tokenizer::{tokenize, tokens_of};
use vstd::prelude::*;
use vstd::std_specs::iter::IteratorSpec;

verus! {

/// A stored text with its identifier and the number of its tokens.
#[derive(Clone, Debug)]
pub struct Document {
    pub id: String,
    pub text: String,
    pub word_count: usize,
}

/// Whether `document` is the document of `text` under `id`.
pub open spec fn describes(document: Document, id: Seq<char>, text: Seq<char>) -> bool {
    &&& document.id@ == id
    &&& document.text@ == text
    &&& document.word_count == tokens_of(text).len()
}

impl Document {
    /// A document for `text`; its word count is the number of tokens in it.
    pub fn new(id: String, text: String) -> (document: Self)
        ensures
            document.id == id,
            document.text == text,
            describes(document, id@, text@),
    {
        let tokens = tokenize(text.as_str());
        assert(tokens.deep_view().len() == tokens.len());
        Document { id, text, word_count: tokens.len() }
    }
}

/// A document as the store keeps it: with the tokens it was indexed under.
struct Record {
    document: Document,
    tokens: Vec<String>,
}

impl Record {
    /// The record belongs under `id`, and its tokens and word count are those
    /// of its text.
    spec fn matches(&self, id: Seq<char>) -> bool {
        &&& self.document.id@ == id
        &&& self.tokens.deep_view() == tokens_of(self.document.text@)
        &&& self.document.word_count == self.tokens.len()
    }

    /// The text of the recorded document.
    spec fn text(&self) -> Seq<char> {
        self.document.text@
    }
}

/// The documents and their index.
pub struct DocumentStore {
    documents: StringMap<Record>,
    index: InvertedIndex,
}

impl DocumentStore {
    /// The ids of the stored documents, in the order they were first stored.
    pub closed spec fn ids(&self) -> Seq<Seq<char>> {
        self.documents.keys()
    }

    /// The texts of the stored documents, each at the position of its id.
    pub closed spec fn texts(&self) -> Seq<Seq<char>> {
        Seq::new(self.documents.values().len(), |i: int| self.documents.values()[i].text())
    }

    /// The corpus: the map from each stored id to its text.
    pub closed spec fn view(&self) -> Map<Seq<char>, Seq<char>> {
        self.documents@.map_values(|record: Record| record.text())
    }

    /// The store is consistent: no id is stored twice, every record is that
    /// of its text, and the index is the index of exactly these documents.
    pub closed spec fn wf(&self) -> bool {
        &&& self.documents.wf()
        &&& self.index.wf()
        &&& forall|i: int|
            0 <= i < self.documents.values().len() ==> (
            #[trigger] self.documents.values()[i]).matches(self.documents.keys()[i])
        &&& self.index.postings() == corpus_postings(self@)
        &&& self.index.total_documents() == self.ids().len()
        &&& self.index.total_token_count() == token_total(self.texts())
    }

    /// In a consistent store the ids are pairwise different, there is one
    /// text for each, and the corpus maps each id to the text at its position.
    pub proof fn lemma_corpus(&self)
        requires
            self.wf(),
        ensures
            self.ids().no_duplicates(),
            self.texts().len() == self.ids().len(),
            forall|id: Seq<char>| self@.contains_key(id) <==> self.ids().contains(id),
            forall|i: int|
                0 <= i < self.ids().len() ==> self@[#[trigger] self.ids()[i]] == self.texts()[i],
    {
        assert forall|i: int| 0 <= i < self.ids().len() implies self@[#[trigger] self.ids()[i]]
            == self.texts()[i] by {
            self.documents.lemma_position(i);
        }
    }

    /// A store without documents.
    pub fn new() -> (store: Self)
        ensures
            store.wf(),
            store.ids() == Seq::<Seq<char>>::empty(),
            store@ == Map::<Seq<char>, Seq<char>>::empty(),
    {
        let store = DocumentStore { documents: StringMap::new(), index: InvertedIndex::new() };
        assert(store@ =~= Map::<Seq<char>, Seq<char>>::empty());
        assert(store.texts() =~= Seq::<Seq<char>>::empty());
        assert(corpus_postings(store@) =~= Map::<Seq<char>, Map<Seq<char>, usize>>::empty());
        store
    }

    /// The number of stored documents.
    pub fn len(&self) -> (n: usize)
        ensures
            n == self.ids().len(),
    {
        self.documents.len()
    }

    /// The index that the store maintains.
    pub closed spec fn spec_index(&self) -> InvertedIndex {
        self.index
    }

    /// The index of the stored documents.
    pub fn index(&self) -> (index: &InvertedIndex)
        requires
            self.wf(),
        ensures
            *index == self.spec_index(),
            index.wf(),
            index.postings() == corpus_postings(self@),
            index.total_documents() == self.ids().len(),
            index.total_token_count() == token_total(self.texts()),
    {
        &self.index
    }

    /// The corpus-wide counts of the stored documents.
    pub open spec fn corpus_stats(&self) -> IndexStats {
        IndexStats {
            total_documents: self.ids().len() as usize,
            total_token_count: token_total(self.texts()) as u128,
        }
    }

    /// The corpus-wide counts: the number of stored documents and the sum of
    /// their word counts.
    pub fn stats(&self) -> (stats: IndexStats)
        requires
            self.wf(),
        ensures
            stats.total_documents == self.ids().len(),
            stats.total_token_count == token_total(self.texts()),
            stats == self.corpus_stats(),
    {
        self.index.stats()
    }

    /// The document stored under `id`, if there is one.
    pub fn get(&self, id: &str) -> (found: Option<&Document>)
        requires
            self.wf(),
        ensures
            match found {
                Some(document) => self@.contains_key(id@) && describes(*document, id@, self@[id@]),
                None => !self@.contains_key(id@),
            },
    {
        let key = id.to_owned();
        match self.documents.get(&key) {
            Some(record) => {
                proof {
                    self.documents.lemma_held(id@);
                    self.documents.lemma_position(self.documents.position(id@));
                    assert(record.tokens.deep_view().len() == record.tokens.len());
                }
                Some(&record.document)
            },
            None => None,
        }
    }

    /// The tokens under which the document `id` is indexed, if it is stored.
    pub fn tokens(&self, id: &str) -> (found: Option<&Vec<String>>)
        requires
            self.wf(),
        ensures
            match found {
                Some(tokens) => self@.contains_key(id@) && tokens.deep_view() == tokens_of(
                    self@[id@],
                ),
                None => !self@.contains_key(id@),
            },
    {
        let key = id.to_owned();
        match self.documents.get(&key) {
            Some(record) => {
                proof {
                    self.documents.lemma_held(id@);
                    self.documents.lemma_position(self.documents.position(id@));
                }
                Some(&record.tokens)
            },
            None => None,
        }
    }

    /// The document at position `i` in the order of the ids.
    pub fn document_at(&self, i: usize) -> (document: &Document)
        requires
            self.wf(),
            i < self.ids().len(),
        ensures
            describes(*document, self.ids()[i as int], self.texts()[i as int]),
    {
        let record = self.documents.value_at(i);
        proof {
            assert(record.matches(self.documents.keys()[i as int]));
            assert(record.tokens.deep_view().len() == record.tokens.len());
        }
        &record.document
    }

    /// Stores `text` under `id` and returns the stored document. A document
    /// already stored under `id` is replaced and keeps its place; its postings
    /// are retracted from the index before those of the new text are added.
    pub fn insert_or_replace(&mut self, id: String, text: String) -> (document: Document)
        requires
            old(self).wf(),
        ensures
            final(self).wf(),
            final(self)@ == old(self)@.insert(id@, text@),
            final(self).ids() == if old(self)@.contains_key(id@) {
                old(self).ids()
            } else {
                old(self).ids().push(id@)
            },
            describes(document, id@, text@),
    {
        let ghost before = *self;
        let ghost corpus = before@;
        proof {
            before.lemma_corpus();
        }
        let count = self.documents.len();
        let tokens = tokenize(text.as_str());
        assert(tokens.deep_view().len() == tokens.len());
        let document = Document { id: id.clone(), text: text.clone(), word_count: tokens.len() };
        proof {
            assert forall|i: int| 0 <= i < before.texts().len() implies tokens_of(
                #[trigger] before.texts()[i],
            ).len() <= usize::MAX by {
                let record = before.documents.values()[i];
                assert(record.matches(before.documents.keys()[i]));
                assert(record.tokens.deep_view().len() == record.tokens.len());
            }
            lemma_total_bound(before.texts(), usize::MAX as nat);
        }
        match self.documents.get(&id) {
            Some(prior) => {
                proof {
                    before.documents.lemma_held(id@);
                    let at = before.documents.position(id@);
                    before.documents.lemma_position(at);
                    assert(prior.matches(id@));
                    assert(prior.tokens.deep_view().len() == prior.tokens.len());
                    lemma_total_remove(before.texts(), at);
                    lemma_removed_document(corpus, id@);
                }
                self.index.remove(id.as_str(), &prior.tokens);
            },
            None => {
                assert(corpus.remove(id@) =~= corpus);
            },
        }
        let ghost retracted = corpus.remove(id@);
        assert(self.index.postings() == corpus_postings(retracted));
        let record = Record {
            document: Document { id: id.clone(), text, word_count: tokens.len() },
            tokens,
        };
        self.documents.insert(id, record);
        let stored = self.documents.len();
        proof {
            assert(self@ =~= corpus.insert(id@, text@));
            assert(retracted.insert(id@, text@) =~= corpus.insert(id@, text@));
            lemma_added_document(retracted, id@, text@);
            if before.documents.contains_key(id@) {
                let at = before.documents.position(id@);
                assert(self.texts() =~= before.texts().update(at, text@));
                lemma_total_update(before.texts(), at, text@);
                lemma_total_remove(before.texts(), at);
            } else {
                assert(self.texts() =~= before.texts().push(text@));
                lemma_total_push(before.texts(), text@);
            }
            assert(count * usize::MAX + usize::MAX <= u128::MAX) by (nonlinear_arith)
                requires
                    count <= usize::MAX,
                    usize::MAX <= 0xffff_ffff_ffff_ffff,
                    u128::MAX == 0xffff_ffff_ffff_ffff_ffff_ffff_ffff_ffff,
            ;
        }
        match self.documents.get(&document.id) {
            Some(kept) => {
                proof {
                    assert(kept.tokens.deep_view().len() == kept.tokens.len());
                }
                self.index.add(kept.document.id.as_str(), &kept.tokens);
            },
            None => {},
        }
        proof {
            assert forall|i: int| 0 <= i < self.documents.values().len() implies (
            #[trigger] self.documents.values()[i]).matches(self.documents.keys()[i]) by {
                if before.documents.contains_key(id@) {
                    let at = before.documents.position(id@);
                    if i != at {
                        assert(self.documents.values()[i] == before.documents.values()[i]);
                    }
                } else {
                    if i < before.documents.values().len() {
                        assert(self.documents.values()[i] == before.documents.values()[i]);
                    }
                }
            }
        }
        document
    }

    /// Stores `document` under its id, replacing any document stored there.
    /// The word count is computed from the text; the one given is not used.
    pub fn insert(&mut self, document: Document)
        requires
            old(self).wf(),
        ensures
            final(self).wf(),
            final(self)@ == old(self)@.insert(document.id@, document.text@),
            final(self).ids() == if old(self)@.contains_key(document.id@) {
                old(self).ids()
            } else {
                old(self).ids().push(document.id@)
            },
    {
        self.insert_or_replace(document.id, document.text);
    }

    /// Removes the document stored under `id` and retracts its postings.
    /// Returns whether there was one.
    pub fn delete(&mut self, id: &str) -> (existed: bool)
        requires
            old(self).wf(),
        ensures
            final(self).wf(),
            existed == old(self)@.contains_key(id@),
            final(self)@ == old(self)@.remove(id@),
            final(self).ids() == if existed {
                old(self).ids().remove(old(self).ids().index_of(id@))
            } else {
                old(self).ids()
            },
    {
        let ghost before = *self;
        let ghost corpus = before@;
        proof {
            before.lemma_corpus();
        }
        let key = id.to_owned();
        match self.documents.get(&key) {
            Some(prior) => {
                proof {
                    before.documents.lemma_held(id@);
                    let at = before.documents.position(id@);
                    before.documents.lemma_position(at);
                    assert(prior.matches(id@));
                    assert(prior.tokens.deep_view().len() == prior.tokens.len());
                    lemma_total_remove(before.texts(), at);
                    lemma_removed_document(corpus, id@);
                }
                self.index.remove(id, &prior.tokens);
            },
            None => {
                assert(corpus.remove(id@) =~= corpus);
                return false;
            },
        }
        self.documents.remove(&key);
        proof {
            let at = before.documents.position(id@);
            assert(self@ =~= corpus.remove(id@));
            assert(self.texts() =~= before.texts().remove(at));
            assert forall|i: int| 0 <= i < self.documents.values().len() implies (
            #[trigger] self.documents.values()[i]).matches(self.documents.keys()[i]) by {
                let b = if i < at { i } else { i + 1 };
                assert(self.documents.values()[i] == before.documents.values()[b]);
                assert(self.documents.keys()[i] == before.documents.keys()[b]);
            }
        }
        true
    }

    /// Copies of all stored documents, in the order of their ids.
    pub fn list(&self) -> (documents: Vec<Document>)
        requires
            self.wf(),
        ensures
            documents.len() == self.ids().len(),
            forall|i: int|
                0 <= i < documents.len() ==> describes(
                    #[trigger] documents[i],
                    self.ids()[i],
                    self.texts()[i],
                ),
    {
        let n = self.documents.len();
        let mut documents: Vec<Document> = Vec::new();
        let mut i: usize = 0;
        while i < n
            invariant
                i <= n,
                n == self.documents.keys().len(),
                self.wf(),
                documents.len() == i,
                forall|k: int|
                    0 <= k < i ==> describes(
                        #[trigger] documents[k],
                        self.ids()[k],
                        self.texts()[k],
                    ),
            decreases n - i,
        {
            let record = self.documents.value_at(i);
            proof {
                assert(record.matches(self.documents.keys()[i as int]));
                assert(record.tokens.deep_view().len() == record.tokens.len());
            }
            let ghost seen = documents@;
            documents.push(
                Document {
                    id: record.document.id.clone(),
                    text: record.document.text.clone(),
                    word_count: record.document.word_count,
                },
            );
            assert forall|k: int| 0 <= k < i + 1 implies describes(
                #[trigger] documents[k],
                self.ids()[k],
                self.texts()[k],
            ) by {
                if k < i {
                    assert(documents[k] == seen[k]);
                }
            }
            i += 1;
        }
        documents
    }

    /// Every stored id with its document, in the order of the ids.
    pub fn iter(&self) -> (entries: std::vec::IntoIter<(&String, &Document)>)
        requires
            self.wf(),
        ensures
            entries.remaining().len() == self.ids().len(),
            forall|i: int|
                0 <= i < self.ids().len() ==> {
                    let entry = #[trigger] entries.remaining()[i];
                    &&& entry.0@ == self.ids()[i]
                    &&& describes(*entry.1, self.ids()[i], self.texts()[i])
                },
    {
        let n = self.documents.len();
        let mut entries: Vec<(&String, &Document)> = Vec::new();
        let mut i: usize = 0;
        while i < n
            invariant
                i <= n,
                n == self.documents.keys().len(),
                self.wf(),
                entries.len() == i,
                forall|k: int|
                    0 <= k < i ==> {
                        let entry = #[trigger] entries[k];
                        &&& entry.0@ == self.ids()[k]
                        &&& describes(*entry.1, self.ids()[k], self.texts()[k])
                    },
            decreases n - i,
        {
            let record = self.documents.value_at(i);
            proof {
                assert(record.matches(self.documents.keys()[i as int]));
                assert(record.tokens.deep_view().len() == record.tokens.len());
            }
            entries.push((self.documents.key_at(i), &record.document));
            i += 1;
        }
        entries.into_iter()
    }

    /// In a consistent store the index counts every stored document once and
    /// every token of every stored text once, and holds the postings of
    /// exactly the stored texts.
    pub proof fn lemma_index_agrees(&self)
        requires
            self.wf(),
        ensures
            self.spec_index().wf(),
            self.spec_index().total_documents() == self.ids().len(),
            self.spec_index().total_documents() == self@.dom().len(),
            self.spec_index().total_token_count() == token_total(self.texts()),
            self.spec_index().postings() == corpus_postings(self@),
    {
        self.documents.lemma_len();
        assert(self@.dom() =~= self.documents@.dom());
    }

    /// Storing a text and then looking its id up finds a document with that
    /// text, whose word count is the number of tokens of the text.
    pub proof fn lemma_round_trip(
        before: &DocumentStore,
        after: &DocumentStore,
        id: Seq<char>,
        text: Seq<char>,
        found: Option<Document>,
    )
        requires
            after@ == before@.insert(id, text),
            match found {
                Some(document) => after@.contains_key(id) && describes(document, id, after@[id]),
                None => !after@.contains_key(id),
            },
        ensures
            found is Some,
            found->0.text@ == text,
            found->0.word_count == tokens_of(text).len(),
    {
    }
}

impl Default for DocumentStore {
    fn default() -> (store: Self)
        ensures
            store.wf(),
            store.ids() == Seq::<Seq<char>>::empty(),
            store@ == Map::<Seq<char>, Seq<char>>::empty(),
    {
        DocumentStore::new()
    }
}

} // verus!
