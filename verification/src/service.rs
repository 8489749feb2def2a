//! What the service does for each request, apart from transport: the state
//! it keeps, the outcome of each operation and the validation of search
//! parameters. Identifiers for new documents are drawn by the caller.

use crate::documents::{describes, Document, DocumentStore};
use vstd::prelude::*;

verus! {

/// Why a request fails.
#[derive(Clone, Copy, Debug, PartialEq, Eq)]
pub enum ApiError {
    /// No document is stored under the requested id.
    NotFound,
    /// The request is malformed: a required field is missing or a value is
    /// out of range.
    InvalidInput,
    /// An invariant of the service was found broken.
    Internal,
}

impl ApiError {
    /// The HTTP status that reports the error.
    pub fn status(&self) -> (code: u16)
        ensures
            code == match *self {
                ApiError::NotFound => 404u16,
                ApiError::InvalidInput => 400u16,
                ApiError::Internal => 500u16,
            },
    {
        match self {
            ApiError::NotFound => 404,
            ApiError::InvalidInput => 400,
            ApiError::Internal => 500,
        }
    }
}

/// The body of a request that creates or updates a document.
pub struct DocumentInput {
    pub text: String,
}

/// The state shared by all requests.
pub struct AppState {
    pub document_store: DocumentStore,
}

impl Default for AppState {
    fn default() -> (state: Self)
        ensures
            state.document_store.wf(),
            state.document_store.ids() == Seq::<Seq<char>>::empty(),
            state.document_store@ == Map::<Seq<char>, Seq<char>>::empty(),
    {
        AppState { document_store: DocumentStore::new() }
    }
}

impl AppState {
    /// Stores a new document under `id`, which the caller has drawn for it,
    /// and returns it.
    pub fn create_document(&mut self, id: String, input: DocumentInput) -> (document: Document)
        requires
            old(self).document_store.wf(),
        ensures
            final(self).document_store.wf(),
            describes(document, id@, input.text@),
            final(self).document_store@ == old(self).document_store@.insert(id@, input.text@),
            final(self).document_store.ids() == if old(self).document_store@.contains_key(id@) {
                old(self).document_store.ids()
            } else {
                old(self).document_store.ids().push(id@)
            },
    {
        self.document_store.insert_or_replace(id, input.text)
    }

    /// Stores the document under `key`, replacing the one stored there.
    pub fn update_document(&mut self, key: String, input: DocumentInput)
        requires
            old(self).document_store.wf(),
        ensures
            final(self).document_store.wf(),
            final(self).document_store@ == old(self).document_store@.insert(key@, input.text@),
            final(self).document_store.ids() == if old(self).document_store@.contains_key(key@) {
                old(self).document_store.ids()
            } else {
                old(self).document_store.ids().push(key@)
            },
    {
        self.document_store.insert_or_replace(key, input.text);
    }

    /// A copy of the document stored under `key`; `NotFound` when there is
    /// none.
    pub fn get_document(&self, key: &str) -> (found: Result<Document, ApiError>)
        requires
            self.document_store.wf(),
        ensures
            match found {
                Ok(document) => self.document_store@.contains_key(key@) && describes(
                    document,
                    key@,
                    self.document_store@[key@],
                ),
                Err(error) => error == ApiError::NotFound && !self.document_store@.contains_key(
                    key@,
                ),
            },
    {
        match self.document_store.get(key) {
            Some(document) => Ok(
                Document {
                    id: document.id.clone(),
                    text: document.text.clone(),
                    word_count: document.word_count,
                },
            ),
            None => Err(ApiError::NotFound),
        }
    }

    /// Copies of all stored documents.
    pub fn get_all_documents(&self) -> (documents: Vec<Document>)
        requires
            self.document_store.wf(),
        ensures
            documents.len() == self.document_store.ids().len(),
            forall|i: int|
                0 <= i < documents.len() ==> describes(
                    #[trigger] documents[i],
                    self.document_store.ids()[i],
                    self.document_store.texts()[i],
                ),
    {
        self.document_store.list()
    }
}

/// The number of results returned when a search names no limit.
pub const DEFAULT_LIMIT: usize = 10;

/// A validated search.
pub struct SearchRequest {
    pub query: String,
    pub top_k: usize,
}

/// The cut-off that a requested limit stands for: the default when none is
/// given, none when the limit is not positive, and otherwise the limit, or
/// the largest count the machine has if the limit is beyond it.
pub open spec fn cutoff(limit: Option<i64>) -> Option<usize> {
    match limit {
        None => Some(DEFAULT_LIMIT),
        Some(l) => if l <= 0 {
            None
        } else if l > usize::MAX {
            Some(usize::MAX)
        } else {
            Some(l as usize)
        },
    }
}

/// Validates the parameters of a search. The query text is required and the
/// limit, if given, must be positive.
pub fn search_request(q: Option<String>, limit: Option<i64>) -> (request: Result<
    SearchRequest,
    ApiError,
>)
    ensures
        match request {
            Ok(request) => {
                &&& q is Some
                &&& request.query == q->0
                &&& cutoff(limit) == Some(request.top_k)
            },
            Err(error) => error == ApiError::InvalidInput && (q is None || cutoff(limit) is None),
        },
{
    let query = match q {
        Some(query) => query,
        None => {
            return Err(ApiError::InvalidInput);
        },
    };
    let top_k = match limit {
        None => DEFAULT_LIMIT,
        Some(l) => {
            if l <= 0 {
                return Err(ApiError::InvalidInput);
            }
            if l as u64 > usize::MAX as u64 {
                usize::MAX
            } else {
                l as usize
            }
        },
    };
    Ok(SearchRequest { query, top_k })
}

} // verus!
