//! A piece-tree text buffer: the in-memory, editable representation of a
//! document. The document is held as an immutable original buffer plus an
//! append-only changed buffer; a red-black tree of pieces (views into the
//! two buffers) reconstructs the text in order, and carries per-node
//! subtree metadata so positional lookups stay logarithmic.

pub mod buffer;
pub mod cache;
pub mod command;
pub mod document;
pub mod grapheme;
pub mod info;
pub mod piece;
pub mod repair;
pub mod text_buffer;
pub mod textspec;
pub mod tree;
