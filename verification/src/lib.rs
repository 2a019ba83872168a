//! An editable-text index: a piece table whose pieces are kept in a red-black
//! tree that caches, per node, the byte length and the line-break count of the
//! left subtree.
//!
//! All offsets are byte offsets into the UTF-8 encoding of the document. The
//! contracts are stated over that encoding, a `Seq<u8>`; columns count Unicode
//! scalar values, that is bytes that are not UTF-8 continuation bytes.
//!
//! - [`text`]: lines, columns and boundaries of a byte sequence.
//! - [`buffer`]: the raw store, a text with its line starts.
//! - [`piece`]: descriptors of runs of bytes in the stores.
//! - [`utils`]: helpers that read pieces out of the stores.
//! - [`red_black_tree`]: the index tree of the pieces.
//! - [`document`]: the bytes that a sequence of pieces stands for.
//! - [`text_buffer`]: the text buffer and its builder.
//! - [`laws`]: what holds of the queries and edits taken together.
//! - [`types`]: positions, ranges and errors.

pub mod buffer;
pub mod document;
pub mod laws;
pub mod piece;
pub mod red_black_tree;
pub mod text;
pub mod text_buffer;
pub mod types;
pub mod utils;

pub use buffer::Buffer;
pub use piece::{Piece, PiecePosition, PieceType};
pub use red_black_tree::{Color, PieceLocation, RBNode, RBTree};
pub use text_buffer::{TextBuffer, TextBufferBuilder};
pub use types::{Position, Range, TextBufferError, TextBufferResult};
