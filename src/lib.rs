//! A compiled path-routing table: route patterns made of slash-separated
//! segments are indexed in a trie, and request paths are resolved against it
//! with captured parameters.

pub mod error;
pub mod laws;
pub mod lexer;
pub mod recode;
pub mod router;
pub mod segment_type;

pub use error::{InsertError, LexerError, MatchError};
pub use recode::{Error, Recoder};
pub use router::{MatchResult, Router};
pub use segment_type::SegmentType;
