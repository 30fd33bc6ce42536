//! Renumbering of citation shorthand in a text into footnote references.
//!
//! A text cites a source by its key, alone as `@key` or in a group as
//! `[@one, @two]`. A scan replaces every citation by a token such as `[1]` or
//! `[2, 1]`, in which each key stands as its number. A key gets the next free number
//! when it is first seen and keeps it, so the numbers run from 1 without a gap, in
//! the order in which the keys first appear.
//!
//! - `text`: the character classes of the syntax, and strings as character sequences.
//! - `matcher`: where citations stand in a text, and what they hold.
//! - `registry`: the keys seen so far and their numbers.
//! - `render`: the tokens, with references as plain numbers or as anchors.
//! - `citation_replacer`: the scan itself.
//! - `utils`: helpers, and the rules by which command-line arguments are accepted.

pub mod citation_replacer;
pub mod matcher;
pub mod registry;
pub mod render;
pub mod text;
pub mod utils;
