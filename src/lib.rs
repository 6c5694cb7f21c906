//! A piece table: an ordered, indexable sequence that splices an immutable source slice
//! together with an append-only buffer of added elements.
//!
//! Scattered insertions and removals only touch a small table of piece descriptors, and
//! sequential edits at adjacent positions reuse the most recently touched piece.
pub mod iter;
pub mod piece;
mod splice;
pub mod table;

pub use iter::{Iter, Range};
pub use piece::{Buffer, Piece};
pub use table::PieceTable;
