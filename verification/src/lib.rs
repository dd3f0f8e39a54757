//! Parsing and formatting for chess notation: Standard Algebraic Notation
//! (SAN) moves, Forsyth-Edwards Notation (FEN) positions, and the tag pairs
//! and move text of PGN game records, plus resolving a SAN move against a
//! position.

pub mod text;
pub mod message;
pub mod split;
pub mod san;
pub mod san_text;
pub mod fen;
pub mod fen_text;
pub mod attack;
pub mod resolve;
pub mod pgn;
pub mod movetext;

pub use san::{
    parse_san, CheckState, Disambiguation, Move, ParseError, ParseErrorKind, PieceKind, Square,
};
pub use fen::{parse_fen, CastlingRights, Color, Piece, Position};
pub use resolve::{resolve_move, ResolveError, ResolveErrorKind, ResolvedMove};
pub use pgn::{parse_tag_pairs, TagPair};
pub use movetext::{parse_movetext, MoveText, MoveTextEntry};
