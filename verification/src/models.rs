//! The typed model of parsed BibTeX content: entries of the four kinds,
//! and the tags and values they hold.

pub mod entry;
pub mod tag;

pub use crate::models::entry::CommentEntry;
pub use crate::models::entry::Entries;
pub use crate::models::entry::Entry;
pub use crate::models::entry::EntryType;
pub use crate::models::entry::PreambleEntry;
pub use crate::models::entry::RefEntry;
pub use crate::models::entry::StringEntry;
pub use crate::models::tag::Part;
pub use crate::models::tag::Sequence;
pub use crate::models::tag::Tag;
pub use crate::models::tag::Value;
