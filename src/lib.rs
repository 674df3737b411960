//! An append-only flat vector index: the on-disk record format, the
//! persistent identifier counter and the bounded best-k ranking used by
//! brute-force search.
pub mod format;
pub mod index;
pub mod le;
pub mod model;
pub mod topk;

pub use format::{IndexError, Record};
pub use index::{Appended, FlatIndex, Opened};
pub use model::{AppConfig, AppSettings, ErrorResponse, SearchRequest};
