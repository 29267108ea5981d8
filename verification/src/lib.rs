//! A BibTeX bibliography formatter: a position-tracking tokenizer, a
//! recursive-descent parser with located errors, and a deterministic
//! formatter that renders entries back to canonical text.

pub mod error;
pub mod format;
pub mod models;
pub mod parse;
pub mod sorting;
pub mod strutil;
pub mod token;

pub use self::error::Error;
pub use self::error::ParseResult;
