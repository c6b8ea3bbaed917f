//! A bounded-concurrency web crawler: URL canonicalization, HTML queries, and a
//! crawl engine whose decisions (deduplication, admission, termination) are
//! stated and proved.
pub mod link;
pub mod parser;
pub mod crawler;

pub use crawler::FetchError;
