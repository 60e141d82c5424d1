//! Chess core: a bitboard board with a mailbox, FEN reading and writing,
//! and pseudo-legal move generation.

pub mod attacks;
pub mod bits;
pub mod board;
pub mod fen;
pub mod fen_canonical;
pub mod fen_laws;
pub mod move_laws;
pub mod moves;
pub mod text;
pub mod types;
