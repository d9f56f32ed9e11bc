//! A chess position engine built on 64-bit bitboards: square utilities,
//! attack generation, the board state with its FEN encoding, move
//! application with undo, and check detection, each specified and proved
//! with Verus. The laws relating these operations are stated as proof
//! functions in `laws` and `round_trip`.

pub mod utils;
pub mod moves;
pub mod board;
pub mod fen;
pub mod rules;
pub mod apply;
pub mod laws;
pub mod round_trip;
