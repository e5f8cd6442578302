//! A block store for titled documents: a binary entry and block format,
//! compact `(block, entry)` references, the ingestion state machine over
//! XML events and the heading-based section splitter.

pub mod error;
pub mod bytes;
pub mod decimal;
pub mod refid;
pub mod entry;
pub mod block;
pub mod store;
pub mod page;
pub mod section;
pub mod ingest;
