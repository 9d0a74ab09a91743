//! Typed syntax trees for Python-flavoured regular expressions: building them
//! from a parse tree, printing them back, and analysing them.
//!
//! - `char_set`: character classes as minimal sorted lists of ranges.
//! - `quantifiers`, `flags`: repetition counts and inline flags.
//! - `element`, `groups`, `pattern`: the tree, its text, minimum match length,
//!   finiteness and capture groups.
//! - `node`, `builder`: the parse tree a grammar hands over, and building the
//!   syntax tree from it.
//! - `group_indices`, `compose`, `traits`: capture numbering, building trees
//!   by hand, and what every node reports.

pub mod text;
pub mod error;
pub mod char_set;
pub mod quantifiers;
pub mod flags;
pub mod element;
pub mod groups;
pub mod pattern;
pub mod node;
pub mod builder;
pub mod group_indices;
pub mod compose;
pub mod traits;
