//! The requests and responses of the service, and how they turn into the
//! engine's own values.
use crate::document::Document;
use crate::engine::{SearchMode, SearchOptions};
use crate::text::str_eq;
use vstd::prelude::*;

verus! {

/// A document as a client hands it in.
#[derive(Debug)]
pub struct InsertDocumentRequest {
    pub id: String,
    pub title: String,
    pub content: String,
    pub url: Option<String>,
}

impl InsertDocumentRequest {
    /// The document that the request describes.
    pub fn into_document(self) -> (doc: Document)
        ensures
            doc.id == self.id,
            doc.title == self.title,
            doc.content == self.content,
            doc.url == self.url,
            doc.metadata.wf(),
            doc.metadata@ == Map::<Seq<char>, String>::empty(),
    {
        self.into_document_with_id(None)
    }

    /// The document that the request describes, under `id` where one is
    /// given in place of the request's own.
    pub fn into_document_with_id(self, id: Option<String>) -> (doc: Document)
        ensures
            doc.id == (match id {
                Some(given) => given,
                None => self.id,
            }),
            doc.title == self.title,
            doc.content == self.content,
            doc.url == self.url,
            doc.metadata.wf(),
            doc.metadata@ == Map::<Seq<char>, String>::empty(),
    {
        let id = match id {
            Some(given) => given,
            None => self.id,
        };
        let doc = Document::new(id, self.title, self.content);
        match self.url {
            Some(url) => doc.with_url(url),
            None => doc,
        }
    }
}

/// Several documents at once.
#[derive(Debug)]
pub struct BatchInsertRequest {
    pub documents: Vec<InsertDocumentRequest>,
}

impl BatchInsertRequest {
    /// The documents that the request describes, in order.
    pub fn into_documents(self) -> (docs: Vec<Document>)
        ensures
            docs@.len() == self.documents@.len(),
            forall|i: int|
                0 <= i < docs@.len() ==> {
                    &&& (#[trigger] docs@[i]).id == self.documents@[i].id
                    &&& docs@[i].title == self.documents@[i].title
                    &&& docs@[i].content == self.documents@[i].content
                    &&& docs@[i].url == self.documents@[i].url
                },
    {
        let ghost all = self.documents@;
        let mut docs: Vec<Document> = Vec::new();
        for request in it: self.documents
            invariant
                it.seq() == all,
                docs@.len() == it.index(),
                forall|i: int|
                    0 <= i < docs@.len() ==> {
                        &&& (#[trigger] docs@[i]).id == all[i].id
                        &&& docs@[i].title == all[i].title
                        &&& docs@[i].content == all[i].content
                        &&& docs@[i].url == all[i].url
                    },
        {
            docs.push(request.into_document());
        }
        docs
    }
}

/// A query as a client hands it in. What is left out has a default.
#[derive(Debug)]
pub struct SearchRequest {
    pub query: String,
    /// `"and"` or `"or"`.
    pub mode: Option<String>,
    pub ranked: Option<bool>,
    pub limit: Option<usize>,
    pub offset: Option<usize>,
}

/// The mode that a request names: `Or` for `"or"`, and `And` for anything
/// else and where none is named.
pub open spec fn mode_of(name: Option<String>) -> SearchMode {
    match name {
        Some(s) => if s@ == "or"@ {
            SearchMode::Or
        } else {
            SearchMode::And
        },
        None => SearchMode::And,
    }
}

impl SearchRequest {
    /// The options that the request asks for: every match, ranked, ten to a
    /// page and from the first one, unless it says otherwise.
    pub fn options(&self) -> (options: SearchOptions)
        ensures
            options.mode == mode_of(self.mode),
            options.use_ranking == (match self.ranked {
                Some(ranked) => ranked,
                None => true,
            }),
            options.limit == (match self.limit {
                Some(limit) => Some(limit),
                None => Some(10usize),
            }),
            options.offset == (match self.offset {
                Some(offset) => offset,
                None => 0,
            }),
    {
        let mode = match &self.mode {
            Some(name) => if str_eq(name.as_str(), "or") {
                SearchMode::Or
            } else {
                SearchMode::And
            },
            None => SearchMode::And,
        };
        SearchOptions {
            mode,
            use_ranking: match self.ranked {
                Some(ranked) => ranked,
                None => true,
            },
            limit: match self.limit {
                Some(limit) => Some(limit),
                None => Some(10),
            },
            offset: match self.offset {
                Some(offset) => offset,
                None => 0,
            },
        }
    }
}

/// A document as a client gets it back.
#[derive(Debug)]
pub struct DocumentResponse {
    pub id: String,
    pub title: String,
    pub content: String,
    pub url: Option<String>,
}

impl From<Document> for DocumentResponse {
    fn from(doc: Document) -> (response: Self) {
        DocumentResponse { id: doc.id, title: doc.title, content: doc.content, url: doc.url }
    }
}

impl vstd::std_specs::convert::FromSpecImpl<Document> for DocumentResponse {
    open spec fn obeys_from_spec() -> bool {
        true
    }

    open spec fn from_spec(doc: Document) -> Self {
        DocumentResponse { id: doc.id, title: doc.title, content: doc.content, url: doc.url }
    }
}

/// The envelope of every response.
#[derive(Debug)]
pub struct ApiResponse<T> {
    pub success: bool,
    pub data: Option<T>,
    pub message: Option<String>,
}

impl<T> ApiResponse<T> {
    /// A response that carries `data`.
    pub fn success(data: T) -> (response: Self)
        ensures
            response.success,
            response.data == Some(data),
            response.message is None,
    {
        ApiResponse { success: true, data: Some(data), message: None }
    }

    /// A failure with its message.
    pub fn error_msg(message: String) -> (response: Self)
        ensures
            !response.success,
            response.data is None,
            response.message == Some(message),
    {
        ApiResponse { success: false, data: None, message: Some(message) }
    }

    /// A failure with its message and no type of data.
    pub fn error(message: String) -> (response: ApiResponse<()>)
        ensures
            !response.success,
            response.data is None,
            response.message == Some(message),
    {
        ApiResponse { success: false, data: None, message: Some(message) }
    }
}

} // verus!
