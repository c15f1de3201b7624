//! A persistent rope for Unicode text: a balanced tree whose leaves hold
//! short UTF-8 chunks and whose internal nodes aggregate metric summaries
//! (bytes, scalars, line breaks) over their descendants.  Clones and
//! slices share structure through reference-counted handles; edits are
//! copy-on-write.

pub mod child_array;
pub mod grapheme;
pub mod laws;
pub mod slice;
pub mod rope;
pub mod node;
pub mod text_info;

pub use text_info::TextInfo;
pub use rope::Rope;
