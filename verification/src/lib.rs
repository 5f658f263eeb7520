//! Documentation indexing and retrieval: a keyword extractor, a document
//! store with relevance scoring, and the decision logic of a remote fetch
//! coordinator (traversal, caching, bounded retry).

pub mod document;
pub mod github;
pub mod keywords;
pub mod server;
pub mod storage;
pub mod text;
