//! Paradox localisation files: the `l_<lang>:` line format and the inline markup of values.

pub mod inline;
pub mod tokenize;

pub use inline::{parse_inline, InlineNode};
pub use tokenize::{parse_loc, LocEntry, LocFile, LocWarning};
