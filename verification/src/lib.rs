//! A chess board: positions read from Forsyth-Edwards notation, a 10x12
//! mailbox board, and pseudo-legal move generation with attack detection.

pub mod fen;
pub mod logic;
pub mod moves;
pub mod text;
pub mod types;

pub use logic::Board;
pub use moves::{Move, MoveBehaviour, MoveKind};
pub use types::{
    CastlingRight, CastlingRights, Color, FenError, Piece, PieceList, PieceType, Square, Target,
};
pub mod start;
