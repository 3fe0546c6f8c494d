//! Static evaluation: tapered material and piece-square tables, pawn
//! structure, bishop pair, mobility, rooks on open files and king shelter.
use vstd::prelude::*;
use crate::position::Position;
use crate::bits::{bit, popcount, popcount_upto, lemma_bit_and, lemma_bit_not, lemma_zero_no_bit};
use crate::types::{Color, pop_lsb, lsb, count_bits};
use crate::movegen::{knight_hits, bishop_hits, rook_hits, knight_attacks, bishop_attacks,
    rook_attacks, queen_attacks};
use vstd::std_specs::bits::u64_trailing_zeros;

verus! {

/// The middlegame piece-square value of piece type `pt` on square `sq`
/// (white's view, a1 first).
pub open spec fn pst_mg(pt: int, sq: int) -> int {
    if pt == 0 {
        seq![
            0int, 0, 0, 0, 0, 0, 0, 0,
            0, 0, 0, 0, 0, 0, 0, 0,
            5, 5, 5, 10, 10, 5, 5, 5,
            10, 10, 15, 20, 20, 15, 10, 10,
            15, 15, 20, 30, 30, 20, 15, 15,
            25, 25, 30, 35, 35, 30, 25, 25,
            40, 40, 40, 50, 50, 40, 40, 40,
            0, 0, 0, 0, 0, 0, 0, 0,
        ][sq]
    } else if pt == 1 {
        seq![
            -50int, -30, -20, -20, -20, -20, -30, -50,
            -30, -10, 0, 5, 5, 0, -10, -30,
            -20, 0, 15, 20, 20, 15, 0, -20,
            -20, 5, 20, 30, 30, 20, 5, -20,
            -20, 5, 20, 30, 30, 20, 5, -20,
            -20, 0, 15, 20, 20, 15, 0, -20,
            -30, -10, 0, 5, 5, 0, -10, -30,
            -50, -30, -20, -20, -20, -20, -30, -50,
        ][sq]
    } else if pt == 2 {
        seq![
            -20int, -10, -10, -10, -10, -10, -10, -20,
            -10, 0, 5, 5, 5, 5, 0, -10,
            -10, 5, 10, 10, 10, 10, 5, -10,
            -10, 5, 10, 15, 15, 10, 5, -10,
            -10, 5, 10, 15, 15, 10, 5, -10,
            -10, 5, 10, 10, 10, 10, 5, -10,
            -10, 0, 5, 5, 5, 5, 0, -10,
            -20, -10, -10, -10, -10, -10, -10, -20,
        ][sq]
    } else if pt == 3 {
        seq![
            0int, 0, 5, 10, 10, 5, 0, 0,
            0, 5, 5, 5, 5, 5, 5, 0,
            0, 0, 5, 5, 5, 5, 0, 0,
            5, 5, 5, 5, 5, 5, 5, 5,
            5, 5, 5, 5, 5, 5, 5, 5,
            0, 0, 5, 5, 5, 5, 0, 0,
            0, 5, 5, 5, 5, 5, 5, 0,
            0, 0, 5, 10, 10, 5, 0, 0,
        ][sq]
    } else if pt == 4 {
        seq![
            -20int, -10, -10, -5, -5, -10, -10, -20,
            -10, 0, 5, 0, 0, 5, 0, -10,
            -10, 5, 5, 5, 5, 5, 5, -10,
            -5, 0, 5, 5, 5, 5, 0, -5,
            -5, 0, 5, 5, 5, 5, 0, -5,
            -10, 5, 5, 5, 5, 5, 5, -10,
            -10, 0, 5, 0, 0, 5, 0, -10,
            -20, -10, -10, -5, -5, -10, -10, -20,
        ][sq]
    } else {
        seq![
            -30int, -30, -30, -30, -30, -30, -30, -30,
            -30, -30, -30, -30, -30, -30, -30, -30,
            -20, -20, -20, -20, -20, -20, -20, -20,
            -10, -10, -10, -10, -10, -10, -10, -10,
            -5, -5, -5, -5, -5, -5, -5, -5,
            0, 0, 0, 0, 0, 0, 0, 0,
            20, 20, 10, 0, 0, 10, 20, 20,
            30, 30, 0, -10, -10, 0, 30, 30,
        ][sq]
    }
}

fn pst_mg_at(pt: usize, sq: usize) -> (r: i32)
    requires
        pt < 6,
        sq < 64,
    ensures
        r == pst_mg(pt as int, sq as int),
{
    let t: [i32; 64] = if pt == 0 {
        [
            0, 0, 0, 0, 0, 0, 0, 0,
            0, 0, 0, 0, 0, 0, 0, 0,
            5, 5, 5, 10, 10, 5, 5, 5,
            10, 10, 15, 20, 20, 15, 10, 10,
            15, 15, 20, 30, 30, 20, 15, 15,
            25, 25, 30, 35, 35, 30, 25, 25,
            40, 40, 40, 50, 50, 40, 40, 40,
            0, 0, 0, 0, 0, 0, 0, 0,
        ]
    } else if pt == 1 {
        [
            -50, -30, -20, -20, -20, -20, -30, -50,
            -30, -10, 0, 5, 5, 0, -10, -30,
            -20, 0, 15, 20, 20, 15, 0, -20,
            -20, 5, 20, 30, 30, 20, 5, -20,
            -20, 5, 20, 30, 30, 20, 5, -20,
            -20, 0, 15, 20, 20, 15, 0, -20,
            -30, -10, 0, 5, 5, 0, -10, -30,
            -50, -30, -20, -20, -20, -20, -30, -50,
        ]
    } else if pt == 2 {
        [
            -20, -10, -10, -10, -10, -10, -10, -20,
            -10, 0, 5, 5, 5, 5, 0, -10,
            -10, 5, 10, 10, 10, 10, 5, -10,
            -10, 5, 10, 15, 15, 10, 5, -10,
            -10, 5, 10, 15, 15, 10, 5, -10,
            -10, 5, 10, 10, 10, 10, 5, -10,
            -10, 0, 5, 5, 5, 5, 0, -10,
            -20, -10, -10, -10, -10, -10, -10, -20,
        ]
    } else if pt == 3 {
        [
            0, 0, 5, 10, 10, 5, 0, 0,
            0, 5, 5, 5, 5, 5, 5, 0,
            0, 0, 5, 5, 5, 5, 0, 0,
            5, 5, 5, 5, 5, 5, 5, 5,
            5, 5, 5, 5, 5, 5, 5, 5,
            0, 0, 5, 5, 5, 5, 0, 0,
            0, 5, 5, 5, 5, 5, 5, 0,
            0, 0, 5, 10, 10, 5, 0, 0,
        ]
    } else if pt == 4 {
        [
            -20, -10, -10, -5, -5, -10, -10, -20,
            -10, 0, 5, 0, 0, 5, 0, -10,
            -10, 5, 5, 5, 5, 5, 5, -10,
            -5, 0, 5, 5, 5, 5, 0, -5,
            -5, 0, 5, 5, 5, 5, 0, -5,
            -10, 5, 5, 5, 5, 5, 5, -10,
            -10, 0, 5, 0, 0, 5, 0, -10,
            -20, -10, -10, -5, -5, -10, -10, -20,
        ]
    } else {
        [
            -30, -30, -30, -30, -30, -30, -30, -30,
            -30, -30, -30, -30, -30, -30, -30, -30,
            -20, -20, -20, -20, -20, -20, -20, -20,
            -10, -10, -10, -10, -10, -10, -10, -10,
            -5, -5, -5, -5, -5, -5, -5, -5,
            0, 0, 0, 0, 0, 0, 0, 0,
            20, 20, 10, 0, 0, 10, 20, 20,
            30, 30, 0, -10, -10, 0, 30, 30,
        ]
    };
    t[sq]
}

/// The endgame piece-square value of piece type `pt` on square `sq`
/// (white's view, a1 first).
pub open spec fn pst_eg(pt: int, sq: int) -> int {
    if pt == 0 {
        seq![
            0int, 0, 0, 0, 0, 0, 0, 0,
            10, 10, 10, 10, 10, 10, 10, 10,
            20, 20, 25, 30, 30, 25, 20, 20,
            30, 30, 35, 40, 40, 35, 30, 30,
            40, 40, 45, 50, 50, 45, 40, 40,
            50, 50, 55, 60, 60, 55, 50, 50,
            60, 60, 60, 70, 70, 60, 60, 60,
            0, 0, 0, 0, 0, 0, 0, 0,
        ][sq]
    } else if pt == 1 {
        seq![
            -40int, -20, -10, -10, -10, -10, -20, -40,
            -20, 0, 5, 10, 10, 5, 0, -20,
            -10, 5, 15, 20, 20, 15, 5, -10,
            -10, 10, 20, 25, 25, 20, 10, -10,
            -10, 10, 20, 25, 25, 20, 10, -10,
            -10, 5, 15, 20, 20, 15, 5, -10,
            -20, 0, 5, 10, 10, 5, 0, -20,
            -40, -20, -10, -10, -10, -10, -20, -40,
        ][sq]
    } else if pt == 2 {
        seq![
            -15int, -10, -10, -10, -10, -10, -10, -15,
            -10, 5, 5, 5, 5, 5, 5, -10,
            -10, 5, 10, 10, 10, 10, 5, -10,
            -10, 5, 10, 15, 15, 10, 5, -10,
            -10, 5, 10, 15, 15, 10, 5, -10,
            -10, 5, 10, 10, 10, 10, 5, -10,
            -10, 5, 5, 5, 5, 5, 5, -10,
            -15, -10, -10, -10, -10, -10, -10, -15,
        ][sq]
    } else if pt == 3 {
        seq![
            5int, 5, 5, 5, 5, 5, 5, 5,
            10, 10, 10, 10, 10, 10, 10, 10,
            10, 10, 10, 10, 10, 10, 10, 10,
            10, 10, 10, 10, 10, 10, 10, 10,
            10, 10, 10, 10, 10, 10, 10, 10,
            10, 10, 10, 10, 10, 10, 10, 10,
            15, 15, 15, 15, 15, 15, 15, 15,
            5, 5, 5, 5, 5, 5, 5, 5,
        ][sq]
    } else if pt == 4 {
        seq![
            -15int, -10, -10, -5, -5, -10, -10, -15,
            -5, 0, 5, 5, 5, 5, 0, -5,
            -5, 5, 5, 5, 5, 5, 5, -5,
            0, 5, 5, 10, 10, 5, 5, 0,
            0, 5, 5, 10, 10, 5, 5, 0,
            -5, 5, 5, 5, 5, 5, 5, -5,
            -5, 0, 5, 5, 5, 5, 0, -5,
            -15, -10, -10, -5, -5, -10, -10, -15,
        ][sq]
    } else {
        seq![
            -50int, -30, -20, -20, -20, -20, -30, -50,
            -30, -10, 0, 5, 5, 0, -10, -30,
            -20, 0, 20, 30, 30, 20, 0, -20,
            -20, 5, 30, 40, 40, 30, 5, -20,
            -20, 5, 30, 40, 40, 30, 5, -20,
            -20, 0, 20, 30, 30, 20, 0, -20,
            -30, -10, 0, 5, 5, 0, -10, -30,
            -50, -30, -20, -20, -20, -20, -30, -50,
        ][sq]
    }
}

fn pst_eg_at(pt: usize, sq: usize) -> (r: i32)
    requires
        pt < 6,
        sq < 64,
    ensures
        r == pst_eg(pt as int, sq as int),
{
    let t: [i32; 64] = if pt == 0 {
        [
            0, 0, 0, 0, 0, 0, 0, 0,
            10, 10, 10, 10, 10, 10, 10, 10,
            20, 20, 25, 30, 30, 25, 20, 20,
            30, 30, 35, 40, 40, 35, 30, 30,
            40, 40, 45, 50, 50, 45, 40, 40,
            50, 50, 55, 60, 60, 55, 50, 50,
            60, 60, 60, 70, 70, 60, 60, 60,
            0, 0, 0, 0, 0, 0, 0, 0,
        ]
    } else if pt == 1 {
        [
            -40, -20, -10, -10, -10, -10, -20, -40,
            -20, 0, 5, 10, 10, 5, 0, -20,
            -10, 5, 15, 20, 20, 15, 5, -10,
            -10, 10, 20, 25, 25, 20, 10, -10,
            -10, 10, 20, 25, 25, 20, 10, -10,
            -10, 5, 15, 20, 20, 15, 5, -10,
            -20, 0, 5, 10, 10, 5, 0, -20,
            -40, -20, -10, -10, -10, -10, -20, -40,
        ]
    } else if pt == 2 {
        [
            -15, -10, -10, -10, -10, -10, -10, -15,
            -10, 5, 5, 5, 5, 5, 5, -10,
            -10, 5, 10, 10, 10, 10, 5, -10,
            -10, 5, 10, 15, 15, 10, 5, -10,
            -10, 5, 10, 15, 15, 10, 5, -10,
            -10, 5, 10, 10, 10, 10, 5, -10,
            -10, 5, 5, 5, 5, 5, 5, -10,
            -15, -10, -10, -10, -10, -10, -10, -15,
        ]
    } else if pt == 3 {
        [
            5, 5, 5, 5, 5, 5, 5, 5,
            10, 10, 10, 10, 10, 10, 10, 10,
            10, 10, 10, 10, 10, 10, 10, 10,
            10, 10, 10, 10, 10, 10, 10, 10,
            10, 10, 10, 10, 10, 10, 10, 10,
            10, 10, 10, 10, 10, 10, 10, 10,
            15, 15, 15, 15, 15, 15, 15, 15,
            5, 5, 5, 5, 5, 5, 5, 5,
        ]
    } else if pt == 4 {
        [
            -15, -10, -10, -5, -5, -10, -10, -15,
            -5, 0, 5, 5, 5, 5, 0, -5,
            -5, 5, 5, 5, 5, 5, 5, -5,
            0, 5, 5, 10, 10, 5, 5, 0,
            0, 5, 5, 10, 10, 5, 5, 0,
            -5, 5, 5, 5, 5, 5, 5, -5,
            -5, 0, 5, 5, 5, 5, 0, -5,
            -15, -10, -10, -5, -5, -10, -10, -15,
        ]
    } else {
        [
            -50, -30, -20, -20, -20, -20, -30, -50,
            -30, -10, 0, 5, 5, 0, -10, -30,
            -20, 0, 20, 30, 30, 20, 0, -20,
            -20, 5, 30, 40, 40, 30, 5, -20,
            -20, 5, 30, 40, 40, 30, 5, -20,
            -20, 0, 20, 30, 30, 20, 0, -20,
            -30, -10, 0, 5, 5, 0, -10, -30,
            -50, -30, -20, -20, -20, -20, -30, -50,
        ]
    };
    t[sq]
}

/// Middlegame material value of a piece type.
pub open spec fn mg_value(pt: int) -> int {
    seq![82int, 337, 365, 477, 1025, 0][pt]
}

/// Endgame material value of a piece type.
pub open spec fn eg_value(pt: int) -> int {
    seq![94int, 281, 297, 512, 936, 0][pt]
}

/// How much a piece type counts toward the middlegame phase.
pub open spec fn phase_weight(pt: int) -> int {
    seq![0int, 1, 1, 2, 4, 0][pt]
}

/// The phase of a full set of pieces.
pub const MAX_PHASE: i32 = 24;

fn mg_value_at(pt: usize) -> (r: i32)
    requires
        pt < 6,
    ensures
        r == mg_value(pt as int),
{
    let t: [i32; 6] = [82, 337, 365, 477, 1025, 0];
    t[pt]
}

fn eg_value_at(pt: usize) -> (r: i32)
    requires
        pt < 6,
    ensures
        r == eg_value(pt as int),
{
    let t: [i32; 6] = [94, 281, 297, 512, 936, 0];
    t[pt]
}

fn phase_weight_at(pt: usize) -> (r: i32)
    requires
        pt < 6,
    ensures
        r == phase_weight(pt as int),
{
    let t: [i32; 6] = [0, 1, 1, 2, 4, 0];
    t[pt]
}

/// +1 for a white piece code, -1 for a black one.
pub open spec fn piece_sign(p: u8) -> int {
    if p < 6 {
        1
    } else {
        -1
    }
}

/// The square a piece reads its table at: its own for white, mirrored
/// top to bottom for black.
pub open spec fn pst_index(p: u8, sq: int) -> int {
    if p < 6 {
        sq
    } else {
        (7 - sq / 8) * 8 + sq % 8
    }
}

/// Material and piece-square sums (middlegame, endgame) and phase over squares `0..n`.
pub open spec fn material_scan(board: Seq<u8>, n: nat) -> (int, int, int)
    decreases n,
{
    if n == 0 {
        (0, 0, 0)
    } else {
        let prev = material_scan(board, (n - 1) as nat);
        let p = board[n - 1];
        if p == 12 {
            prev
        } else {
            let pt = (p % 6) as int;
            let i = pst_index(p, n - 1);
            (
                prev.0 + piece_sign(p) * (mg_value(pt) + pst_mg(pt, i)),
                prev.1 + piece_sign(p) * (eg_value(pt) + pst_eg(pt, i)),
                prev.2 + phase_weight(pt),
            )
        }
    }
}

proof fn lemma_pst_bounds(pt: int, sq: int)
    requires
        0 <= pt < 6,
        0 <= sq < 64,
    ensures
        -50 <= pst_mg(pt, sq) <= 50,
        -50 <= pst_eg(pt, sq) <= 70,
{
}

#[verifier::spinoff_prover]
fn eval_material(pos: &Position) -> (r: (i32, i32, i32))
    ensures
        r.0 == material_scan(pos.board@, 64).0,
        r.1 == material_scan(pos.board@, 64).1,
        r.2 == material_scan(pos.board@, 64).2,
        -64 * 1100 <= r.0 <= 64 * 1100,
        -64 * 1100 <= r.1 <= 64 * 1100,
        0 <= r.2 <= 64 * 4,
{
    let mut mg: i32 = 0;
    let mut eg: i32 = 0;
    let mut phase: i32 = 0;
    let mut sq: usize = 0;
    while sq < 64
        invariant
            sq <= 64,
            pos.board@.len() == 64,
            (mg as int, eg as int, phase as int) == material_scan(pos.board@, sq as nat),
            -1100 * sq <= mg <= 1100 * sq,
            -1100 * sq <= eg <= 1100 * sq,
            0 <= phase <= 4 * sq,
        decreases 64 - sq,
    {
        let piece = pos.board[sq];
        if piece != 12 {
            let pt = (piece % 6) as usize;
            let white = piece < 6;
            let pst_sq = if white {
                sq
            } else {
                let m = sq ^ 56;
                assert(sq ^ 56 == (7 - sq / 8) * 8 + sq % 8) by (bit_vector)
                    requires
                        sq < 64,
                ;
                m
            };
            proof {
                lemma_pst_bounds(pt as int, pst_sq as int);
            }
            let vm = mg_value_at(pt) + pst_mg_at(pt, pst_sq);
            let ve = eg_value_at(pt) + pst_eg_at(pt, pst_sq);
            if white {
                mg = mg + vm;
                eg = eg + ve;
            } else {
                mg = mg - vm;
                eg = eg - ve;
            }
            phase = phase + phase_weight_at(pt);
            assert(pst_index(piece, sq as int) == pst_sq);
        }
        assert((mg as int, eg as int, phase as int) == material_scan(pos.board@, (sq + 1) as nat));
        sq += 1;
    }
    (mg, eg, phase)
}

/// Passed-pawn bonus by rank (from the pawn's own side), middlegame.
pub open spec fn pass_mg(r: int) -> int {
    seq![0int, 5, 10, 20, 35, 60, 100, 0][r]
}

/// Passed-pawn bonus by rank (from the pawn's own side), endgame.
pub open spec fn pass_eg(r: int) -> int {
    seq![0int, 10, 20, 40, 70, 120, 180, 0][r]
}

fn pass_mg_at(r: usize) -> (v: i32)
    requires
        r < 8,
    ensures
        v == pass_mg(r as int),
{
    let t: [i32; 8] = [0, 5, 10, 20, 35, 60, 100, 0];
    t[r]
}

fn pass_eg_at(r: usize) -> (v: i32)
    requires
        r < 8,
    ensures
        v == pass_eg(r as int),
{
    let t: [i32; 8] = [0, 10, 20, 40, 70, 120, 180, 0];
    t[r]
}

/// Code `p` is a pawn of the given side (white: codes below 6).
pub open spec fn is_pawn_of(p: u8, white: bool) -> bool {
    p != 12 && p % 6 == 0 && (p < 6) == white
}

/// The number of pawns of a side on file `f` among squares `0..n`.
pub open spec fn file_pawns(board: Seq<u8>, white: bool, f: int, n: nat) -> nat
    decreases n,
{
    if n == 0 {
        0
    } else {
        file_pawns(board, white, f, (n - 1) as nat) + if (n - 1) % 8 == f && is_pawn_of(
            board[n - 1],
            white,
        ) {
            1nat
        } else {
            0nat
        }
    }
}

/// A pawn of the side on file `f` has no friendly pawn on a neighbouring file.
pub open spec fn isolated_file(board: Seq<u8>, white: bool, f: int) -> bool {
    (f == 0 || file_pawns(board, white, f - 1, 64) == 0) && (f == 7 || file_pawns(
        board,
        white,
        f + 1,
        64,
    ) == 0)
}

pub open spec fn iabs(a: int) -> int {
    if a < 0 {
        -a
    } else {
        a
    }
}

/// The piece on `o` is an enemy pawn on the same or a neighbouring file,
/// ahead of a pawn of the side on `sq`.
pub open spec fn blocks_passer(board: Seq<u8>, sq: int, white: bool, o: int) -> bool {
    let q = board[o];
    &&& q != 12
    &&& q % 6 == 0
    &&& (q < 6) != white
    &&& iabs(o % 8 - sq % 8) <= 1
    &&& if white {
        o / 8 > sq / 8
    } else {
        o / 8 < sq / 8
    }
}

/// A pawn of the side on `sq` is passed: it is not on its last rank and no
/// enemy pawn stands ahead of it on its own or a neighbouring file.
pub open spec fn spec_is_passed(board: Seq<u8>, sq: int, white: bool) -> bool {
    &&& !(white && sq / 8 >= 7)
    &&& !(!white && sq / 8 <= 0)
    &&& forall|o: int| 0 <= o < 64 ==> !#[trigger] blocks_passer(board, sq, white, o)
}

fn is_passed(sq: u8, white: bool, pos: &Position) -> (r: bool)
    requires
        sq < 64,
    ensures
        r == spec_is_passed(pos.board@, sq as int, white),
{
    let file = (sq % 8) as i32;
    let rank = (sq / 8) as i32;
    if (white && rank >= 7) || (!white && rank <= 0) {
        return false;
    }
    let mut o: usize = 0;
    while o < 64
        invariant
            o <= 64,
            pos.board@.len() == 64,
            file == sq % 8,
            rank == sq / 8,
            forall|j: int| 0 <= j < o ==> !#[trigger] blocks_passer(pos.board@, sq as int, white, j),
        decreases 64 - o,
    {
        let q = pos.board[o];
        if q != 12 && q % 6 == 0 && (q < 6) != white {
            let of = (o % 8) as i32;
            let orank = (o / 8) as i32;
            let d = of - file;
            if -1 <= d && d <= 1 {
                if white && orank > rank {
                    assert(blocks_passer(pos.board@, sq as int, white, o as int));
                    return false;
                }
                if !white && orank < rank {
                    assert(blocks_passer(pos.board@, sq as int, white, o as int));
                    return false;
                }
            }
        }
        o += 1;
    }
    true
}

/// The pawn-structure terms of the piece on `s`: isolated, doubled and
/// passed pawns, counted for white and against black.
pub open spec fn pawn_terms(board: Seq<u8>, s: int) -> (int, int) {
    let p = board[s];
    let f = s % 8;
    if is_pawn_of(p, true) {
        let iso = isolated_file(board, true, f);
        let dbl = file_pawns(board, true, f, 64) > 1;
        let pas = spec_is_passed(board, s, true);
        (
            (if iso { -14int } else { 0 }) + (if dbl { -8int } else { 0 }) + (if pas {
                pass_mg(s / 8)
            } else {
                0
            }),
            (if iso { -18int } else { 0 }) + (if dbl { -12int } else { 0 }) + (if pas {
                pass_eg(s / 8)
            } else {
                0
            }),
        )
    } else if is_pawn_of(p, false) {
        let iso = isolated_file(board, false, f);
        let dbl = file_pawns(board, false, f, 64) > 1;
        let pas = spec_is_passed(board, s, false);
        (
            (if iso { 14int } else { 0 }) + (if dbl { 8int } else { 0 }) - (if pas {
                pass_mg(7 - s / 8)
            } else {
                0
            }),
            (if iso { 18int } else { 0 }) + (if dbl { 12int } else { 0 }) - (if pas {
                pass_eg(7 - s / 8)
            } else {
                0
            }),
        )
    } else {
        (0, 0)
    }
}

/// The pawn-structure terms summed over squares `0..n`.
pub open spec fn pawn_scan(board: Seq<u8>, n: nat) -> (int, int)
    decreases n,
{
    if n == 0 {
        (0, 0)
    } else {
        let prev = pawn_scan(board, (n - 1) as nat);
        let t = pawn_terms(board, n - 1);
        (prev.0 + t.0, prev.1 + t.1)
    }
}

proof fn lemma_file_pawns_le(board: Seq<u8>, white: bool, f: int, n: nat)
    ensures
        file_pawns(board, white, f, n) <= n,
    decreases n,
{
    if n > 0 {
        lemma_file_pawns_le(board, white, f, (n - 1) as nat);
    }
}

/// The pawn-structure terms of the square `sq`, given the pawn counts per file.
fn pawn_square_terms(pos: &Position, sq: usize, white_file: &[u32; 8], black_file: &[u32; 8]) -> (r: (i32, i32))
    requires
        sq < 64,
        pos.board@.len() == 64,
        forall|f: int| 0 <= f < 8 ==> #[trigger] white_file@[f] == file_pawns(pos.board@, true, f, 64),
        forall|f: int| 0 <= f < 8 ==> #[trigger] black_file@[f] == file_pawns(pos.board@, false, f, 64),
    ensures
        r.0 == pawn_terms(pos.board@, sq as int).0,
        r.1 == pawn_terms(pos.board@, sq as int).1,
        -220 <= r.0 <= 220,
        -220 <= r.1 <= 220,
{
    let p = pos.board[sq];
    let f = sq % 8;
    let mut mg: i32 = 0;
    let mut eg: i32 = 0;
    if p != 12 && p % 6 == 0 {
        let white = p < 6;
        let files = if white {
            *white_file
        } else {
            *black_file
        };
        let isolated = (f == 0 || files[f - 1] == 0) && (f == 7 || files[f + 1] == 0);
        let doubled = files[f] > 1;
        let passed = is_passed(sq as u8, white, pos);
        let rank = sq / 8;
        if white {
            if isolated {
                mg = mg - 14;
                eg = eg - 18;
            }
            if doubled {
                mg = mg - 8;
                eg = eg - 12;
            }
            if passed {
                mg = mg + pass_mg_at(rank);
                eg = eg + pass_eg_at(rank);
            }
        } else {
            if isolated {
                mg = mg + 14;
                eg = eg + 18;
            }
            if doubled {
                mg = mg + 8;
                eg = eg + 12;
            }
            if passed {
                mg = mg - pass_mg_at(7 - rank);
                eg = eg - pass_eg_at(7 - rank);
            }
        }
    }
    (mg, eg)
}

fn eval_pawn_structure(pos: &Position) -> (r: (i32, i32))
    ensures
        r.0 == pawn_scan(pos.board@, 64).0,
        r.1 == pawn_scan(pos.board@, 64).1,
        -64 * 220 <= r.0 <= 64 * 220,
        -64 * 220 <= r.1 <= 64 * 220,
{
    let mut white_file: [u32; 8] = [0; 8];
    let mut black_file: [u32; 8] = [0; 8];
    let mut sq: usize = 0;
    while sq < 64
        invariant
            sq <= 64,
            pos.board@.len() == 64,
            forall|f: int| 0 <= f < 8 ==> #[trigger] white_file@[f] == file_pawns(pos.board@, true, f, sq as nat),
            forall|f: int| 0 <= f < 8 ==> #[trigger] black_file@[f] == file_pawns(pos.board@, false, f, sq as nat),
        decreases 64 - sq,
    {
        let p = pos.board[sq];
        let f = sq % 8;
        proof {
            assert forall|g: int| 0 <= g < 8 implies file_pawns(pos.board@, true, g, sq as nat) <= sq && file_pawns(pos.board@, false, g, sq as nat) <= sq by {
                lemma_file_pawns_le(pos.board@, true, g, sq as nat);
                lemma_file_pawns_le(pos.board@, false, g, sq as nat);
            }
        }
        if p != 12 && p % 6 == 0 {
            if p < 6 {
                white_file[f] = white_file[f] + 1;
            } else {
                black_file[f] = black_file[f] + 1;
            }
        }
        sq += 1;
    }
    let mut mg: i32 = 0;
    let mut eg: i32 = 0;
    let mut sq: usize = 0;
    while sq < 64
        invariant
            sq <= 64,
            pos.board@.len() == 64,
            forall|f: int| 0 <= f < 8 ==> #[trigger] white_file@[f] == file_pawns(pos.board@, true, f, 64),
            forall|f: int| 0 <= f < 8 ==> #[trigger] black_file@[f] == file_pawns(pos.board@, false, f, 64),
            (mg as int, eg as int) == pawn_scan(pos.board@, sq as nat),
            -220 * sq <= mg <= 220 * sq,
            -220 * sq <= eg <= 220 * sq,
        decreases 64 - sq,
    {
        let (tm, te) = pawn_square_terms(pos, sq, &white_file, &black_file);
        mg = mg + tm;
        eg = eg + te;
        sq += 1;
    }
    (mg, eg)
}

/// `f(s)` summed over the squares `s < n` set in `x`.
pub open spec fn bit_sum(x: u64, f: spec_fn(int) -> int, n: nat) -> int
    decreases n,
{
    if n == 0 {
        0
    } else {
        bit_sum(x, f, (n - 1) as nat) + if bit(x, (n - 1) as u64) {
            f(n - 1)
        } else {
            0
        }
    }
}

/// Clearing the set square `sq` of `x` takes `f(sq)` off the sum.
proof fn lemma_bit_sum_remove(x: u64, y: u64, sq: u64, f: spec_fn(int) -> int, n: nat)
    requires
        sq < 64,
        n <= 64,
        bit(x, sq),
        forall|j: u64| j < 64 ==> #[trigger] bit(y, j) == (bit(x, j) && j != sq),
    ensures
        bit_sum(x, f, n) == bit_sum(y, f, n) + if sq < n {
            f(sq as int)
        } else {
            0
        },
    decreases n,
{
    if n > 0 {
        lemma_bit_sum_remove(x, y, sq, f, (n - 1) as nat);
        assert(bit(y, (n - 1) as u64) == (bit(x, (n - 1) as u64) && (n - 1) != sq));
    }
}

proof fn lemma_bit_sum_zero(f: spec_fn(int) -> int, n: nat)
    requires
        n <= 64,
    ensures
        bit_sum(0u64, f, n) == 0,
    decreases n,
{
    if n > 0 {
        lemma_bit_sum_zero(f, (n - 1) as nat);
        lemma_zero_no_bit((n - 1) as u64);
    }
}

/// The sum of `f` over the set squares is bounded by `b` per square.
proof fn lemma_bit_sum_bounds(x: u64, f: spec_fn(int) -> int, b: int, n: nat)
    requires
        b >= 0,
        forall|s: int| 0 <= s < 64 ==> -b <= #[trigger] f(s) <= b,
        n <= 64,
    ensures
        -b * n <= bit_sum(x, f, n) <= b * n,
    decreases n,
{
    if n > 0 {
        lemma_bit_sum_bounds(x, f, b, (n - 1) as nat);
        assert(-b * n == -b * (n - 1) - b) by (nonlinear_arith);
        assert(b * n == b * (n - 1) + b) by (nonlinear_arith);
    }
}

/// Square `t` is attacked from `s` by a piece of type `kind` (1 knight,
/// 2 bishop, 3 rook, 4 queen) with the occupancy `occ`.
pub open spec fn attack_hit(kind: int, s: int, t: int, occ: u64) -> bool {
    if kind == 1 {
        knight_hits(s, t)
    } else if kind == 2 {
        bishop_hits(s, t, occ)
    } else if kind == 3 {
        rook_hits(s, t, occ)
    } else {
        bishop_hits(s, t, occ) || rook_hits(s, t, occ)
    }
}

/// The number of squares `t < n` a piece of type `kind` on `s` attacks that
/// are not in `own`.
pub open spec fn mob_count(kind: int, s: int, occ: u64, own: u64, n: nat) -> nat
    decreases n,
{
    if n == 0 {
        0
    } else {
        mob_count(kind, s, occ, own, (n - 1) as nat) + if attack_hit(kind, s, n - 1, occ) && !bit(
            own,
            (n - 1) as u64,
        ) {
            1nat
        } else {
            0nat
        }
    }
}

/// Mobility weight per reachable square: knight 4, bishop 3, rook 2, queen 1.
pub open spec fn mob_mult(kind: int) -> int {
    5 - kind
}

/// The mobility score of a piece of type `kind` on a square.
pub open spec fn mob_fn(kind: int, occ: u64, own: u64) -> spec_fn(int) -> int {
    |s: int| mob_mult(kind) * mob_count(kind, s, occ, own, 64)
}

proof fn lemma_popcount_is_mob_count(x: u64, kind: int, s: int, occ: u64, own: u64, n: nat)
    requires
        n <= 64,
        forall|t: u64| t < 64 ==> #[trigger] bit(x, t) == (attack_hit(kind, s, t as int, occ) && !bit(own, t)),
    ensures
        popcount_upto(x, n) == mob_count(kind, s, occ, own, n),
    decreases n,
{
    if n > 0 {
        lemma_popcount_is_mob_count(x, kind, s, occ, own, (n - 1) as nat);
        assert(bit(x, (n - 1) as u64) == (attack_hit(kind, s, n - 1, occ) && !bit(own, (n - 1) as u64)));
    }
}

proof fn lemma_mob_count_le(kind: int, s: int, occ: u64, own: u64, n: nat)
    ensures
        mob_count(kind, s, occ, own, n) <= n,
    decreases n,
{
    if n > 0 {
        lemma_mob_count_le(kind, s, occ, own, (n - 1) as nat);
    }
}

/// The mobility of one piece of type `kind` on `sq`.
fn piece_mobility(kind: u8, sq: u8, occ: u64, own: u64) -> (r: i32)
    requires
        1 <= kind <= 4,
        sq < 64,
    ensures
        r == mob_fn(kind as int, occ, own)(sq as int),
        0 <= r <= 256,
{
    let att = if kind == 1 {
        knight_attacks(sq)
    } else if kind == 2 {
        bishop_attacks(sq, occ)
    } else if kind == 3 {
        rook_attacks(sq, occ)
    } else {
        queen_attacks(sq, occ)
    };
    let x = att & !own;
    proof {
        assert forall|t: u64| t < 64 implies #[trigger] bit(x, t) == (attack_hit(
            kind as int,
            sq as int,
            t as int,
            occ,
        ) && !bit(own, t)) by {
            lemma_bit_and(att, !own, t);
            lemma_bit_not(own, t);
        }
        lemma_popcount_is_mob_count(x, kind as int, sq as int, occ, own, 64);
        lemma_mob_count_le(kind as int, sq as int, occ, own, 64);
    }
    let n = count_bits(x) as i32;
    let m = (5 - kind) as i32;
    assert(0 <= m * n <= 256) by (nonlinear_arith)
        requires
            1 <= m <= 4,
            0 <= n <= 64,
    ;
    m * n
}

/// The mobility of all pieces of type `kind` standing on the squares of `pieces`.
fn kind_mobility(pieces: u64, kind: u8, occ: u64, own: u64) -> (r: i32)
    requires
        1 <= kind <= 4,
    ensures
        r == bit_sum(pieces, mob_fn(kind as int, occ, own), 64),
        -256 * 64 <= r <= 256 * 64,
{
    let ghost f = mob_fn(kind as int, occ, own);
    proof {
        assert forall|s: int| 0 <= s < 64 implies -256 <= #[trigger] f(s) <= 256 by {
            lemma_mob_count_le(kind as int, s, occ, own, 64);
            assert(0 <= mob_mult(kind as int) * mob_count(kind as int, s, occ, own, 64) <= 256) by (nonlinear_arith)
                requires
                    1 <= mob_mult(kind as int) <= 4,
                    mob_count(kind as int, s, occ, own, 64) <= 64,
            ;
        }
        lemma_bit_sum_bounds(pieces, f, 256, 64);
    }
    let mut bb = pieces;
    let mut total: i32 = 0;
    while bb != 0
        invariant
            1 <= kind <= 4,
            f == mob_fn(kind as int, occ, own),
            forall|s: int| 0 <= s < 64 ==> -256 <= #[trigger] f(s) <= 256,
            total == bit_sum(pieces, f, 64) - bit_sum(bb, f, 64),
            -256 * 64 <= bit_sum(pieces, f, 64) <= 256 * 64,
            -256 * 64 <= bit_sum(bb, f, 64) <= 256 * 64,
            -256 * 64 * 2 <= total <= 256 * 64 * 2,
        decreases bb,
    {
        let ghost old_bb = bb;
        let sq = pop_lsb(&mut bb);
        proof {
            lemma_bit_sum_remove(old_bb, bb, sq as u64, f, 64);
            lemma_bit_sum_bounds(bb, f, 256, 64);
        }
        let m = piece_mobility(kind, sq, occ, own);
        total = total + m;
    }
    proof {
        lemma_bit_sum_zero(f, 64);
    }
    total
}

/// Mobility for both sides: each side's knights, bishops, rooks and queens,
/// white counted for, black against.
pub open spec fn spec_mobility(pos: Position) -> int {
    let occ = pos.occupied_all;
    let w = pos.occupied@[0];
    let b = pos.occupied@[1];
    (bit_sum(pos.bb@[1], mob_fn(1, occ, w), 64) + bit_sum(pos.bb@[2], mob_fn(2, occ, w), 64)
        + bit_sum(pos.bb@[3], mob_fn(3, occ, w), 64) + bit_sum(pos.bb@[4], mob_fn(4, occ, w), 64))
        - (bit_sum(pos.bb@[7], mob_fn(1, occ, b), 64) + bit_sum(pos.bb@[8], mob_fn(2, occ, b), 64)
        + bit_sum(pos.bb@[9], mob_fn(3, occ, b), 64) + bit_sum(pos.bb@[10], mob_fn(4, occ, b), 64))
}

fn eval_mobility(pos: &Position) -> (r: i32)
    ensures
        r == spec_mobility(*pos),
        -256 * 64 * 8 <= r <= 256 * 64 * 8,
{
    let occ = pos.occupied_all;
    let w = pos.occupied[0];
    let b = pos.occupied[1];
    let white = kind_mobility(pos.bb[1], 1, occ, w) + kind_mobility(pos.bb[2], 2, occ, w)
        + kind_mobility(pos.bb[3], 3, occ, w) + kind_mobility(pos.bb[4], 4, occ, w);
    let black = kind_mobility(pos.bb[7], 1, occ, b) + kind_mobility(pos.bb[8], 2, occ, b)
        + kind_mobility(pos.bb[9], 3, occ, b) + kind_mobility(pos.bb[10], 4, occ, b);
    white - black
}

/// The bishop pair: two or more bishops of a side are worth (22, 40).
pub open spec fn spec_bishop_pair(pos: Position) -> (int, int) {
    let w = popcount(pos.bb@[2]) >= 2;
    let b = popcount(pos.bb@[8]) >= 2;
    (
        (if w { 22int } else { 0 }) - (if b { 22int } else { 0 }),
        (if w { 40int } else { 0 }) - (if b { 40int } else { 0 }),
    )
}

/// The bishop pair is a bonus for the side that owns it: with two or more
/// white bishops and fewer than two black ones the term is (+22, +40) from
/// White's view, with the colours reversed (-22, -40), and nothing when both
/// or neither side has the pair.
pub proof fn lemma_bishop_pair_owner(pos: Position)
    ensures
        popcount(pos.bb@[2]) >= 2 && popcount(pos.bb@[8]) < 2 ==> spec_bishop_pair(pos) == (
            22int,
            40int,
        ),
        popcount(pos.bb@[8]) >= 2 && popcount(pos.bb@[2]) < 2 ==> spec_bishop_pair(pos) == (
            -22int,
            -40int,
        ),
        (popcount(pos.bb@[2]) >= 2) == (popcount(pos.bb@[8]) >= 2) ==> spec_bishop_pair(pos) == (
            0int,
            0int,
        ),
        pos.wf() ==> popcount(pos.bb@[2]) == crate::position::count_code(pos.board@, 2, 64)
            && popcount(pos.bb@[8]) == crate::position::count_code(pos.board@, 8, 64),
{
    if pos.wf() {
        crate::position::lemma_popcount_counts(pos.board@, pos.bb@[2], 2, 64);
        crate::position::lemma_popcount_counts(pos.board@, pos.bb@[8], 8, 64);
    }
}

fn eval_bishop_pair(pos: &Position) -> (r: (i32, i32))
    ensures
        r.0 == spec_bishop_pair(*pos).0,
        r.1 == spec_bishop_pair(*pos).1,
        -40 <= r.0 <= 40,
        -40 <= r.1 <= 40,
{
    let white_bishops = count_bits(pos.bb[2]);
    let black_bishops = count_bits(pos.bb[8]);
    let mut mg: i32 = 0;
    let mut eg: i32 = 0;
    if white_bishops >= 2 {
        mg += 22;
        eg += 40;
    }
    if black_bishops >= 2 {
        mg -= 22;
        eg -= 40;
    }
    (mg, eg)
}

/// A pawn of the side stands somewhere on file `f`.
pub open spec fn has_file_pawn(board: Seq<u8>, white: bool, f: int) -> bool {
    file_pawns(board, white, f, 64) > 0
}

/// The rook on `s` of the side: an open file is worth (15, 15), a file
/// without own pawns (8, 12).
pub open spec fn rook_mg(board: Seq<u8>, white: bool) -> spec_fn(int) -> int {
    |s: int|
        {
            let own = has_file_pawn(board, white, s % 8);
            let opp = has_file_pawn(board, !white, s % 8);
            if !own && !opp {
                15
            } else if !own {
                8
            } else {
                0
            }
        }
}

pub open spec fn rook_eg(board: Seq<u8>, white: bool) -> spec_fn(int) -> int {
    |s: int|
        {
            let own = has_file_pawn(board, white, s % 8);
            let opp = has_file_pawn(board, !white, s % 8);
            if !own && !opp {
                15
            } else if !own {
                12
            } else {
                0
            }
        }
}

/// Rooks on open and half-open files, white counted for, black against.
pub open spec fn spec_rooks(pos: Position) -> (int, int) {
    let board = pos.board@;
    (
        bit_sum(pos.bb@[3], rook_mg(board, true), 64) - bit_sum(pos.bb@[9], rook_mg(board, false), 64),
        bit_sum(pos.bb@[3], rook_eg(board, true), 64) - bit_sum(pos.bb@[9], rook_eg(board, false), 64),
    )
}

fn side_rooks(pos: &Position, white: bool, pw: &[bool; 8], pb: &[bool; 8]) -> (r: (i32, i32))
    requires
        forall|f: int| 0 <= f < 8 ==> #[trigger] pw@[f] == has_file_pawn(pos.board@, true, f),
        forall|f: int| 0 <= f < 8 ==> #[trigger] pb@[f] == has_file_pawn(pos.board@, false, f),
    ensures
        r.0 == bit_sum(pos.bb@[if white { 3int } else { 9int }], rook_mg(pos.board@, white), 64),
        r.1 == bit_sum(pos.bb@[if white { 3int } else { 9int }], rook_eg(pos.board@, white), 64),
        0 <= r.0 <= 15 * 64,
        0 <= r.1 <= 15 * 64,
{
    let ghost fm = rook_mg(pos.board@, white);
    let ghost fe = rook_eg(pos.board@, white);
    let rooks = if white {
        pos.bb[3]
    } else {
        pos.bb[9]
    };
    proof {
        assert forall|s: int| 0 <= s < 64 implies 0 <= #[trigger] fm(s) <= 15 by {}
        assert forall|s: int| 0 <= s < 64 implies 0 <= #[trigger] fe(s) <= 15 by {}
        lemma_bit_sum_bounds(rooks, fm, 15, 64);
        lemma_bit_sum_bounds(rooks, fe, 15, 64);
    }
    let mut bb = rooks;
    let mut mg: i32 = 0;
    let mut eg: i32 = 0;
    while bb != 0
        invariant
            fm == rook_mg(pos.board@, white),
            fe == rook_eg(pos.board@, white),
            forall|f: int| 0 <= f < 8 ==> #[trigger] pw@[f] == has_file_pawn(pos.board@, true, f),
            forall|f: int| 0 <= f < 8 ==> #[trigger] pb@[f] == has_file_pawn(pos.board@, false, f),
            forall|s: int| 0 <= s < 64 ==> 0 <= #[trigger] fm(s) <= 15,
            forall|s: int| 0 <= s < 64 ==> 0 <= #[trigger] fe(s) <= 15,
            mg == bit_sum(rooks, fm, 64) - bit_sum(bb, fm, 64),
            eg == bit_sum(rooks, fe, 64) - bit_sum(bb, fe, 64),
            -15 * 64 <= bit_sum(rooks, fm, 64) <= 15 * 64,
            -15 * 64 <= bit_sum(rooks, fe, 64) <= 15 * 64,
            -15 * 64 <= bit_sum(bb, fm, 64) <= 15 * 64,
            -15 * 64 <= bit_sum(bb, fe, 64) <= 15 * 64,
        decreases bb,
    {
        let ghost old_bb = bb;
        let sq = pop_lsb(&mut bb);
        proof {
            lemma_bit_sum_remove(old_bb, bb, sq as u64, fm, 64);
            lemma_bit_sum_remove(old_bb, bb, sq as u64, fe, 64);
            lemma_bit_sum_bounds(bb, fm, 15, 64);
            lemma_bit_sum_bounds(bb, fe, 15, 64);
        }
        let f = (sq % 8) as usize;
        let own_pawn = if white {
            pw[f]
        } else {
            pb[f]
        };
        let opp_pawn = if white {
            pb[f]
        } else {
            pw[f]
        };
        if !own_pawn && !opp_pawn {
            mg = mg + 15;
            eg = eg + 15;
        } else if !own_pawn {
            mg = mg + 8;
            eg = eg + 12;
        }
    }
    proof {
        lemma_bit_sum_zero(fm, 64);
        lemma_bit_sum_zero(fe, 64);
        assert forall|s: int| 0 <= s < 64 implies 0 <= #[trigger] fm(s) && 0 <= fe(s) by {}
        lemma_bit_sum_nonneg(rooks, fm, 64);
        lemma_bit_sum_nonneg(rooks, fe, 64);
    }
    (mg, eg)
}

proof fn lemma_bit_sum_nonneg(x: u64, f: spec_fn(int) -> int, n: nat)
    requires
        n <= 64,
        forall|s: int| 0 <= s < 64 ==> 0 <= #[trigger] f(s),
    ensures
        0 <= bit_sum(x, f, n),
    decreases n,
{
    if n > 0 {
        lemma_bit_sum_nonneg(x, f, (n - 1) as nat);
    }
}

fn eval_rooks(pos: &Position) -> (r: (i32, i32))
    ensures
        r.0 == spec_rooks(*pos).0,
        r.1 == spec_rooks(*pos).1,
        -15 * 64 <= r.0 <= 15 * 64,
        -15 * 64 <= r.1 <= 15 * 64,
{
    let mut pw: [bool; 8] = [false; 8];
    let mut pb: [bool; 8] = [false; 8];
    let mut sq: usize = 0;
    while sq < 64
        invariant
            sq <= 64,
            pos.board@.len() == 64,
            forall|f: int| 0 <= f < 8 ==> #[trigger] pw@[f] == (file_pawns(pos.board@, true, f, sq as nat) > 0),
            forall|f: int| 0 <= f < 8 ==> #[trigger] pb@[f] == (file_pawns(pos.board@, false, f, sq as nat) > 0),
        decreases 64 - sq,
    {
        let p = pos.board[sq];
        if p != 12 && p % 6 == 0 {
            let f = sq % 8;
            if p < 6 {
                pw[f] = true;
            } else {
                pb[f] = true;
            }
        }
        sq += 1;
    }
    let (wm, we) = side_rooks(pos, true, &pw, &pb);
    let (bm, be) = side_rooks(pos, false, &pw, &pb);
    (wm - bm, we - be)
}

/// Code `p` is a pawn of the side.
pub open spec fn own_pawn_at(board: Seq<u8>, white: bool, sq: int) -> bool {
    is_pawn_of(board[sq], white)
}

/// The shelter term of one file in front of the king: +8 for an own pawn
/// on the first shield rank, -10 without, +4 more for an own pawn on the second.
pub open spec fn shield_file(board: Seq<u8>, white: bool, kr: int, sr: int, f: int) -> int {
    if f < 0 || f > 7 {
        0
    } else {
        let first = if own_pawn_at(board, white, sr * 8 + f) {
            8int
        } else {
            -10int
        };
        let sr2 = if white {
            kr + 2
        } else {
            kr - 2
        };
        let second = if 0 <= sr2 <= 7 && own_pawn_at(board, white, sr2 * 8 + f) {
            4int
        } else {
            0
        };
        first + second
    }
}

/// The middlegame king shelter of a side whose king bitboard is `kings`:
/// the lowest king (square 64 when there is none) looks at the three files
/// around it on the rank in front and the one after.
pub open spec fn king_shelter(board: Seq<u8>, kings: u64, white: bool) -> int {
    let ksq = u64_trailing_zeros(kings) as int;
    let kf = ksq % 8;
    let kr = ksq / 8;
    let sr = if white {
        kr + 1
    } else {
        kr - 1
    };
    if sr < 0 || sr > 7 {
        0
    } else {
        shield_file(board, white, kr, sr, kf - 1) + shield_file(board, white, kr, sr, kf)
            + shield_file(board, white, kr, sr, kf + 1)
    }
}

/// King safety (middlegame only), white counted for, black against.
pub open spec fn spec_king_safety(pos: Position) -> int {
    king_shelter(pos.board@, pos.bb@[5], true) - king_shelter(pos.board@, pos.bb@[11], false)
}

fn side_shelter(pos: &Position, white: bool) -> (r: i32)
    ensures
        r == king_shelter(pos.board@, pos.bb@[if white { 5int } else { 11int }], white),
        -36 <= r <= 36,
{
    let kings = if white {
        pos.bb[5]
    } else {
        pos.bb[11]
    };
    let king_sq = lsb(kings);
    proof {
        vstd::std_specs::bits::axiom_u64_trailing_zeros(kings);
    }
    let king_file = (king_sq % 8) as i32;
    let king_rank = (king_sq / 8) as i32;
    let shield_rank = if white {
        king_rank + 1
    } else {
        king_rank - 1
    };
    if shield_rank < 0 || shield_rank > 7 {
        return 0;
    }
    let mut total: i32 = 0;
    let mut df: i32 = -1;
    while df <= 1
        invariant
            -1 <= df <= 2,
            pos.board@.len() == 64,
            0 <= shield_rank <= 7,
            0 <= king_file <= 7,
            king_rank == king_sq / 8,
            king_file == king_sq % 8,
            king_sq <= 64,
            shield_rank == if white { king_rank + 1 } else { king_rank - 1 },
            total == (if df > -1 { shield_file(pos.board@, white, king_rank as int, shield_rank as int, king_file - 1) } else { 0 })
                + (if df > 0 { shield_file(pos.board@, white, king_rank as int, shield_rank as int, king_file as int) } else { 0 })
                + (if df > 1 { shield_file(pos.board@, white, king_rank as int, shield_rank as int, king_file + 1) } else { 0 }),
            -12 * (df + 1) <= total <= 12 * (df + 1),
        decreases 2 - df,
    {
        let f = king_file + df;
        if f >= 0 && f <= 7 {
            let sq = (shield_rank * 8 + f) as usize;
            let p = pos.board[sq];
            if p != 12 && p % 6 == 0 && (p < 6) == white {
                total = total + 8;
            } else {
                total = total - 10;
            }
            let shield_rank2 = if white {
                king_rank + 2
            } else {
                king_rank - 2
            };
            if shield_rank2 >= 0 && shield_rank2 <= 7 {
                let sq2 = (shield_rank2 * 8 + f) as usize;
                let p2 = pos.board[sq2];
                if p2 != 12 && p2 % 6 == 0 && (p2 < 6) == white {
                    total = total + 4;
                }
            }
        }
        df += 1;
    }
    total
}

fn eval_king_safety(pos: &Position) -> (r: i32)
    ensures
        r == spec_king_safety(*pos),
        -72 <= r <= 72,
{
    side_shelter(pos, true) - side_shelter(pos, false)
}

/// The side to move's view of the position: material and piece-square
/// values, pawn structure, bishop pair, mobility, rooks and king shelter,
/// middlegame and endgame sums blended by the phase (capped at 24), then a
/// tempo bonus of 10.
pub open spec fn spec_evaluate(pos: Position) -> int {
    let m = material_scan(pos.board@, 64);
    let ps = pawn_scan(pos.board@, 64);
    let bp = spec_bishop_pair(pos);
    let mob = spec_mobility(pos);
    let rk = spec_rooks(pos);
    let ks = spec_king_safety(pos);
    let mg = m.0 + ps.0 + bp.0 + mob + rk.0 + ks;
    let eg = m.1 + ps.1 + bp.1 + mob + rk.1;
    let phase = if m.2 > 24 {
        24
    } else {
        m.2
    };
    let score = crate::history::trunc_div(mg * phase + eg * (24 - phase), 24);
    (if pos.side_to_move == Color::White {
        score
    } else {
        -score
    }) + 10
}

/// The static evaluation of `pos` from the side to move's view.
pub fn evaluate(pos: &Position) -> (r: i32)
    ensures
        r == spec_evaluate(*pos),
        -300010 <= r <= 300010,
{
    let (mut mg, mut eg, mut phase) = eval_material(pos);
    let (pmg, peg) = eval_pawn_structure(pos);
    mg = mg + pmg;
    eg = eg + peg;
    let (bmg, beg) = eval_bishop_pair(pos);
    mg = mg + bmg;
    eg = eg + beg;
    let mob = eval_mobility(pos);
    mg = mg + mob;
    eg = eg + mob;
    let (rmg, reg) = eval_rooks(pos);
    mg = mg + rmg;
    eg = eg + reg;
    let kmg = eval_king_safety(pos);
    mg = mg + kmg;
    if phase > MAX_PHASE {
        phase = MAX_PHASE;
    }
    assert(-7200000 <= mg * phase <= 7200000) by (nonlinear_arith)
        requires
            -300000 <= mg <= 300000,
            0 <= phase <= 24,
    ;
    assert(-7200000 <= eg * (MAX_PHASE - phase) <= 7200000) by (nonlinear_arith)
        requires
            -300000 <= eg <= 300000,
            0 <= phase <= 24,
    ;
    assert(-7200000 <= mg * phase + eg * (MAX_PHASE - phase) <= 7200000) by (nonlinear_arith)
        requires
            -300000 <= mg <= 300000,
            -300000 <= eg <= 300000,
            0 <= phase <= 24,
    ;
    let score = (mg * phase + eg * (MAX_PHASE - phase)) / MAX_PHASE;
    let tempo: i32 = 10;
    let side_sign: i32 = if pos.side_to_move == Color::White {
        1
    } else {
        -1
    };
    side_sign * score + tempo
}

} // verus!
