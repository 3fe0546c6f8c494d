//! Siroco: a bitboard chess engine library whose board logic, move
//! generation, evaluation, tables and search carry Verus contracts.
pub mod bits;
pub mod text;
pub mod types;
pub mod position;
pub mod movegen;
pub mod playable;
pub mod perft;
pub mod fen;
pub mod fen_roundtrip;
pub mod history;
pub mod tt;
pub mod syzygy;
pub mod eval;
pub mod search;
pub mod uci;
pub mod trace;

use vstd::prelude::*;

verus! {

} // verus!
