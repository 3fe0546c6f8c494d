//! Attacks, attack detection and move generation.
use vstd::prelude::*;
use crate::bits::{bit, lemma_bit_or, lemma_bit_and, lemma_bit_not, lemma_bit_single, lemma_zero_no_bit, lemma_nonzero_iff_bit};
use crate::types::{Color, PieceType, Move, MoveList, Square, NO_PIECE, color_idx, piece_code, spec_opposite, file_of, rank_of, square_file, square_rank, make_square};
use crate::position::{Position, PosView, has_king, spec_make, lemma_unmake_undoes_make};
use crate::playable::{gen_ready, lemma_pseudo_facts, lemma_facts_reversible};


verus! {

pub open spec fn on_board(r: int, f: int) -> bool {
    0 <= r < 8 && 0 <= f < 8
}

pub open spec fn abs(x: int) -> int {
    if x >= 0 {
        x
    } else {
        -x
    }
}

/// `k` steps in direction `d` (one of -1, 0, 1).
pub open spec fn step(k: int, d: int) -> int {
    if d > 0 {
        k
    } else if d < 0 {
        -k
    } else {
        0
    }
}

/// A knight on `s` attacks `t`.
pub open spec fn knight_hits(s: int, t: int) -> bool {
    let dr = abs(rank_of(t) - rank_of(s));
    let df = abs(file_of(t) - file_of(s));
    (dr == 1 && df == 2) || (dr == 2 && df == 1)
}

/// A king on `s` attacks `t`.
pub open spec fn king_hits(s: int, t: int) -> bool {
    let dr = abs(rank_of(t) - rank_of(s));
    let df = abs(file_of(t) - file_of(s));
    dr <= 1 && df <= 1 && !(dr == 0 && df == 0)
}

/// A pawn of color `c` on `s` attacks `t`: one rank forward, one file aside.
pub open spec fn pawn_hits(c: Color, s: int, t: int) -> bool {
    &&& abs(file_of(t) - file_of(s)) == 1
    &&& rank_of(t) == rank_of(s) + if c == Color::White {
        1int
    } else {
        -1int
    }
}

/// The square `k` steps from `s` in direction `(dr, df)`.
pub open spec fn ray_square(s: int, dr: int, df: int, k: int) -> int {
    (rank_of(s) + step(k, dr)) * 8 + (file_of(s) + step(k, df))
}

/// A slider on `s` moving in direction `(dr, df)` reaches `t` in `k` steps over
/// empty squares of `occ`.
pub open spec fn ray_hit_at(s: int, t: int, dr: int, df: int, occ: u64, k: int) -> bool {
    &&& 1 <= k <= 7
    &&& on_board(rank_of(s) + step(k, dr), file_of(s) + step(k, df))
    &&& t == ray_square(s, dr, df, k)
    &&& forall|j: int| 1 <= j < k ==> !#[trigger] bit(occ, ray_square(s, dr, df, j) as u64)
}

/// A slider on `s` moving in direction `(dr, df)` reaches `t` over empty squares of `occ`.
pub open spec fn ray_hit(s: int, t: int, dr: int, df: int, occ: u64) -> bool {
    exists|k: int| #[trigger] ray_hit_at(s, t, dr, df, occ, k)
}

pub open spec fn bishop_hits(s: int, t: int, occ: u64) -> bool {
    ray_hit(s, t, 1, 1, occ) || ray_hit(s, t, 1, -1, occ) || ray_hit(s, t, -1, 1, occ) || ray_hit(
        s,
        t,
        -1,
        -1,
        occ,
    )
}

pub open spec fn rook_hits(s: int, t: int, occ: u64) -> bool {
    ray_hit(s, t, 1, 0, occ) || ray_hit(s, t, -1, 0, occ) || ray_hit(s, t, 0, 1, occ) || ray_hit(
        s,
        t,
        0,
        -1,
        occ,
    )
}

/// Adds square `(r + dr, f + df)` to `bb` if it is on the board.
fn add_target(bb: u64, r: i8, f: i8, dr: i8, df: i8) -> (res: u64)
    requires
        0 <= r < 8,
        0 <= f < 8,
        -2 <= dr <= 2,
        -2 <= df <= 2,
    ensures
        forall|t: u64|
            t < 64 ==> #[trigger] bit(res, t) == (bit(bb, t) || (on_board(r + dr, f + df) && t
                == (r + dr) * 8 + (f + df))),
{
    let nr = r + dr;
    let nf = f + df;
    if nr >= 0 && nr < 8 && nf >= 0 && nf < 8 {
        let sq = make_square(nf as u8, nr as u8);
        proof {
            assert forall|t: u64| t < 64 implies #[trigger] bit(bb | (1u64 << sq), t) == (bit(bb, t)
                || t == sq) by {
                lemma_bit_or(bb, 1u64 << sq, t);
                lemma_bit_single(sq as u64, t);
            }
        }
        bb | (1u64 << sq)
    } else {
        bb
    }
}

proof fn lemma_square_coords(t: int)
    requires
        0 <= t < 64,
    ensures
        t == rank_of(t) * 8 + file_of(t),
        0 <= rank_of(t) < 8,
        0 <= file_of(t) < 8,
        forall|r: int, f: int| on_board(r, f) && t == r * 8 + f ==> r == rank_of(t) && f == file_of(
            t,
        ),
{
}

pub fn knight_attacks(sq: Square) -> (bb: u64)
    requires
        sq < 64,
    ensures
        forall|t: u64| t < 64 ==> #[trigger] bit(bb, t) == knight_hits(sq as int, t as int),
{
    let r = square_rank(sq) as i8;
    let f = square_file(sq) as i8;
    let mut bb = 0u64;
    bb = add_target(bb, r, f, 2, 1);
    bb = add_target(bb, r, f, 1, 2);
    bb = add_target(bb, r, f, -1, 2);
    bb = add_target(bb, r, f, -2, 1);
    bb = add_target(bb, r, f, -2, -1);
    bb = add_target(bb, r, f, -1, -2);
    bb = add_target(bb, r, f, 1, -2);
    bb = add_target(bb, r, f, 2, -1);
    proof {
        assert forall|t: u64| t < 64 implies #[trigger] bit(bb, t) == knight_hits(
            sq as int,
            t as int,
        ) by {
            lemma_zero_no_bit(t);
            lemma_square_coords(t as int);
        }
    }
    bb
}

pub fn king_attacks(sq: Square) -> (bb: u64)
    requires
        sq < 64,
    ensures
        forall|t: u64| t < 64 ==> #[trigger] bit(bb, t) == king_hits(sq as int, t as int),
{
    let r = square_rank(sq) as i8;
    let f = square_file(sq) as i8;
    let mut bb = 0u64;
    bb = add_target(bb, r, f, -1, -1);
    bb = add_target(bb, r, f, -1, 0);
    bb = add_target(bb, r, f, -1, 1);
    bb = add_target(bb, r, f, 0, -1);
    bb = add_target(bb, r, f, 0, 1);
    bb = add_target(bb, r, f, 1, -1);
    bb = add_target(bb, r, f, 1, 0);
    bb = add_target(bb, r, f, 1, 1);
    proof {
        assert forall|t: u64| t < 64 implies #[trigger] bit(bb, t) == king_hits(
            sq as int,
            t as int,
        ) by {
            lemma_zero_no_bit(t);
            lemma_square_coords(t as int);
        }
    }
    bb
}

pub fn pawn_attacks(color: Color, sq: Square) -> (bb: u64)
    requires
        sq < 64,
    ensures
        forall|t: u64| t < 64 ==> #[trigger] bit(bb, t) == pawn_hits(color, sq as int, t as int),
{
    let r = square_rank(sq) as i8;
    let f = square_file(sq) as i8;
    let mut bb = 0u64;
    if color == Color::White {
        bb = add_target(bb, r, f, 1, -1);
        bb = add_target(bb, r, f, 1, 1);
    } else {
        bb = add_target(bb, r, f, -1, -1);
        bb = add_target(bb, r, f, -1, 1);
    }
    proof {
        assert forall|t: u64| t < 64 implies #[trigger] bit(bb, t) == pawn_hits(
            color,
            sq as int,
            t as int,
        ) by {
            lemma_zero_no_bit(t);
            lemma_square_coords(t as int);
        }
    }
    bb
}

/// `t` is one of the first `k - 1` squares from `s` in direction `(dr, df)`.
pub open spec fn ray_upto(s: int, t: int, dr: int, df: int, k: int) -> bool {
    exists|j: int| 1 <= j < k && t == #[trigger] ray_square(s, dr, df, j)
}

/// The squares a slider on `sq` reaches in direction `(dr, df)` given the occupancy `occ`:
/// it stops on the first occupied square.
fn slide(sq: Square, occ: u64, dr: i8, df: i8) -> (bb: u64)
    requires
        sq < 64,
        -1 <= dr <= 1,
        -1 <= df <= 1,
        !(dr == 0 && df == 0),
    ensures
        forall|t: u64| t < 64 ==> #[trigger] bit(bb, t) == ray_hit(sq as int, t as int, dr as int, df as int, occ),
{
    let r = square_rank(sq) as i8;
    let f = square_file(sq) as i8;
    let mut attacks = 0u64;
    let mut nr = r + dr;
    let mut nf = f + df;
    let mut blocked = false;
    let ghost mut k: int = 1;
    let ghost s = sq as int;
    proof {
        assert forall|t: u64| t < 64 implies #[trigger] bit(attacks, t) == ray_upto(s, t as int, dr as int, df as int, k) by {
            lemma_zero_no_bit(t);
        }
    }
    while !blocked && nr >= 0 && nr < 8 && nf >= 0 && nf < 8
        invariant
            r == rank_of(s),
            f == file_of(s),
            0 <= s < 64,
            -1 <= dr <= 1,
            -1 <= df <= 1,
            !(dr == 0 && df == 0),
            1 <= k <= 8,
            !blocked ==> nr == r + step(k, dr as int) && nf == f + step(k, df as int),
            forall|j: int| 1 <= j < k ==> on_board(r + step(j, dr as int), f + step(j, df as int)),
            !blocked ==> forall|j: int| 1 <= j < k ==> !#[trigger] bit(occ, ray_square(s, dr as int, df as int, j) as u64),
            blocked ==> k >= 2 && bit(occ, ray_square(s, dr as int, df as int, k - 1) as u64)
                && forall|j: int| 1 <= j < k - 1 ==> !#[trigger] bit(occ, ray_square(s, dr as int, df as int, j) as u64),
            forall|t: u64| t < 64 ==> #[trigger] bit(attacks, t) == ray_upto(s, t as int, dr as int, df as int, k),
        decreases 8 - k,
    {
        let nsq = make_square(nf as u8, nr as u8);
        assert(nsq == ray_square(s, dr as int, df as int, k));
        let ghost old_att = attacks;
        attacks = attacks | (1u64 << nsq);
        proof {
            assert forall|t: u64| t < 64 implies #[trigger] bit(attacks, t) == ray_upto(s, t as int, dr as int, df as int, k + 1) by {
                lemma_bit_or(old_att, 1u64 << nsq, t);
                lemma_bit_single(nsq as u64, t);
                if t == nsq {
                    assert(t as int == ray_square(s, dr as int, df as int, k));
                } else if ray_upto(s, t as int, dr as int, df as int, k + 1) {
                    let j = choose|j: int| 1 <= j < k + 1 && t as int == #[trigger] ray_square(s, dr as int, df as int, j);
                    assert(j < k);
                }
            }
        }
        proof {
            lemma_bit_and(occ, 1u64 << nsq, nsq as u64);
            lemma_bit_single(nsq as u64, nsq as u64);
            lemma_zero_no_bit(nsq as u64);
        }
        if occ & (1u64 << nsq) != 0 {
            proof {
                crate::bits::lemma_nonzero_iff_bit(occ & (1u64 << nsq));
                let i = choose|i: u64| i < 64 && #[trigger] bit(occ & (1u64 << nsq), i);
                lemma_bit_and(occ, 1u64 << nsq, i);
                lemma_bit_single(nsq as u64, i);
            }
            blocked = true;
        } else {
            nr = nr + dr;
            nf = nf + df;
        }
        proof {
            k = k + 1;
        }
    }
    proof {
        assert forall|t: u64| t < 64 implies #[trigger] bit(attacks, t) == ray_hit(s, t as int, dr as int, df as int, occ) by {
            if bit(attacks, t) {
                let j = choose|j: int| 1 <= j < k && t as int == #[trigger] ray_square(s, dr as int, df as int, j);
                assert(ray_hit_at(s, t as int, dr as int, df as int, occ, j));
            } else if ray_hit(s, t as int, dr as int, df as int, occ) {
                let j = choose|j: int| #[trigger] ray_hit_at(s, t as int, dr as int, df as int, occ, j);
                if j < k {
                    assert(ray_upto(s, t as int, dr as int, df as int, k));
                } else if blocked {
                    assert(!bit(occ, ray_square(s, dr as int, df as int, k - 1) as u64));
                } else {
                    assert(!on_board(r + step(j, dr as int), f + step(j, df as int)));
                }
            }
        }
    }
    attacks
}

pub fn bishop_attacks(sq: Square, occ: u64) -> (bb: u64)
    requires
        sq < 64,
    ensures
        forall|t: u64| t < 64 ==> #[trigger] bit(bb, t) == bishop_hits(sq as int, t as int, occ),
{
    let a = slide(sq, occ, 1, 1);
    let b = slide(sq, occ, 1, -1);
    let c = slide(sq, occ, -1, 1);
    let d = slide(sq, occ, -1, -1);
    proof {
        assert forall|t: u64| t < 64 implies #[trigger] bit(a | b | c | d, t) == bishop_hits(
            sq as int,
            t as int,
            occ,
        ) by {
            lemma_bit_or(a | b | c, d, t);
            lemma_bit_or(a | b, c, t);
            lemma_bit_or(a, b, t);
        }
    }
    a | b | c | d
}

pub fn rook_attacks(sq: Square, occ: u64) -> (bb: u64)
    requires
        sq < 64,
    ensures
        forall|t: u64| t < 64 ==> #[trigger] bit(bb, t) == rook_hits(sq as int, t as int, occ),
{
    let a = slide(sq, occ, 1, 0);
    let b = slide(sq, occ, -1, 0);
    let c = slide(sq, occ, 0, 1);
    let d = slide(sq, occ, 0, -1);
    proof {
        assert forall|t: u64| t < 64 implies #[trigger] bit(a | b | c | d, t) == rook_hits(
            sq as int,
            t as int,
            occ,
        ) by {
            lemma_bit_or(a | b | c, d, t);
            lemma_bit_or(a | b, c, t);
            lemma_bit_or(a, b, t);
        }
    }
    a | b | c | d
}

pub fn queen_attacks(sq: Square, occ: u64) -> (bb: u64)
    requires
        sq < 64,
    ensures
        forall|t: u64| t < 64 ==> #[trigger] bit(bb, t) == (bishop_hits(sq as int, t as int, occ)
            || rook_hits(sq as int, t as int, occ)),
{
    let b = bishop_attacks(sq, occ);
    let r = rook_attacks(sq, occ);
    proof {
        assert forall|t: u64| t < 64 implies #[trigger] bit(b | r, t) == (bishop_hits(
            sq as int,
            t as int,
            occ,
        ) || rook_hits(sq as int, t as int, occ)) by {
            lemma_bit_or(b, r, t);
        }
    }
    b | r
}

/// A ray from `s` to `t` is a ray from `t` to `s` in the opposite direction.
pub proof fn lemma_ray_symmetric(s: int, t: int, dr: int, df: int, occ: u64)
    requires
        0 <= s < 64,
        0 <= t < 64,
        -1 <= dr <= 1,
        -1 <= df <= 1,
    ensures
        ray_hit(s, t, dr, df, occ) == ray_hit(t, s, -dr, -df, occ),
{
    if ray_hit(s, t, dr, df, occ) {
        let k = choose|k: int| #[trigger] ray_hit_at(s, t, dr, df, occ, k);
        lemma_square_coords(t);
        lemma_square_coords(s);
        assert forall|j: int| 1 <= j < k implies !#[trigger] bit(
            occ,
            ray_square(t, -dr, -df, j) as u64,
        ) by {
            assert(ray_square(t, -dr, -df, j) == ray_square(s, dr, df, k - j));
        }
        assert(ray_hit_at(t, s, -dr, -df, occ, k));
    }
    if ray_hit(t, s, -dr, -df, occ) {
        let k = choose|k: int| #[trigger] ray_hit_at(t, s, -dr, -df, occ, k);
        lemma_square_coords(t);
        lemma_square_coords(s);
        assert forall|j: int| 1 <= j < k implies !#[trigger] bit(
            occ,
            ray_square(s, dr, df, j) as u64,
        ) by {
            assert(ray_square(s, dr, df, j) == ray_square(t, -dr, -df, k - j));
        }
        assert(ray_hit_at(s, t, dr, df, occ, k));
    }
}

/// Sliding attacks are symmetric between the two squares.
pub proof fn lemma_slider_symmetric(s: int, t: int, occ: u64)
    requires
        0 <= s < 64,
        0 <= t < 64,
    ensures
        bishop_hits(s, t, occ) == bishop_hits(t, s, occ),
        rook_hits(s, t, occ) == rook_hits(t, s, occ),
{
    lemma_ray_symmetric(s, t, 1, 1, occ);
    lemma_ray_symmetric(s, t, 1, -1, occ);
    lemma_ray_symmetric(s, t, -1, 1, occ);
    lemma_ray_symmetric(s, t, -1, -1, occ);
    lemma_ray_symmetric(s, t, 1, 0, occ);
    lemma_ray_symmetric(s, t, -1, 0, occ);
    lemma_ray_symmetric(s, t, 0, 1, occ);
    lemma_ray_symmetric(s, t, 0, -1, occ);
}

/// The occupancy word of a board: bit `i` set when square `i < n` holds a piece.
pub open spec fn occ_word(board: Seq<u8>, n: nat) -> u64
    decreases n,
{
    if n == 0 {
        0
    } else if board[n - 1] < 12 {
        occ_word(board, (n - 1) as nat) | (1u64 << ((n - 1) as u64))
    } else {
        occ_word(board, (n - 1) as nat)
    }
}

pub open spec fn board_occ(board: Seq<u8>) -> u64 {
    occ_word(board, 64)
}

proof fn lemma_occ_word_bits(board: Seq<u8>, n: nat)
    requires
        n <= 64,
        board.len() == 64,
    ensures
        forall|i: u64| i < 64 ==> #[trigger] bit(occ_word(board, n), i) == (i < n && board[i as int]
            < 12),
    decreases n,
{
    if n == 0 {
        assert forall|i: u64| i < 64 implies !#[trigger] bit(occ_word(board, n), i) by {
            lemma_zero_no_bit(i);
        }
    } else {
        lemma_occ_word_bits(board, (n - 1) as nat);
        let w = occ_word(board, (n - 1) as nat);
        assert forall|i: u64| i < 64 implies #[trigger] bit(occ_word(board, n), i) == (i < n
            && board[i as int] < 12) by {
            lemma_bit_or(w, 1u64 << ((n - 1) as u64), i);
            lemma_bit_single((n - 1) as u64, i);
        }
    }
}

/// A word with the occupancy bits of the board is the board's occupancy word.
pub proof fn lemma_board_occ(board: Seq<u8>, all: u64)
    requires
        board.len() == 64,
        forall|i: u64| i < 64 ==> #[trigger] bit(all, i) == (board[i as int] < 12),
    ensures
        all == board_occ(board),
{
    lemma_occ_word_bits(board, 64);
    assert forall|i: u64| i < 64 implies #[trigger] bit(all, i) == bit(board_occ(board), i) by {}
    crate::bits::lemma_bits_ext(all, board_occ(board));
}

/// The piece on `a` (of color `c`) attacks `sq`.
pub open spec fn attacks_from(board: Seq<u8>, a: int, sq: int, c: Color) -> bool {
    let p = board[a] as int;
    let occ = board_occ(board);
    ||| p == piece_code(c, PieceType::Pawn) && pawn_hits(c, a, sq)
    ||| p == piece_code(c, PieceType::Knight) && knight_hits(a, sq)
    ||| p == piece_code(c, PieceType::King) && king_hits(a, sq)
    ||| (p == piece_code(c, PieceType::Bishop) || p == piece_code(c, PieceType::Queen))
        && bishop_hits(a, sq, occ)
    ||| (p == piece_code(c, PieceType::Rook) || p == piece_code(c, PieceType::Queen)) && rook_hits(
        a,
        sq,
        occ,
    )
}

/// Some piece of color `c` attacks `sq`.
pub open spec fn square_attacked(board: Seq<u8>, sq: int, c: Color) -> bool {
    exists|a: int| 0 <= a < 64 && #[trigger] attacks_from(board, a, sq, c)
}

proof fn lemma_and_nonzero(x: u64, y: u64)
    ensures
        (x & y != 0) <==> exists|i: u64| i < 64 && #[trigger] bit(x, i) && bit(y, i),
{
    lemma_nonzero_iff_bit(x & y);
    if x & y != 0 {
        let i = choose|i: u64| i < 64 && #[trigger] bit(x & y, i);
        lemma_bit_and(x, y, i);
    } else {
        assert forall|i: u64| i < 64 implies !(#[trigger] bit(x, i) && bit(y, i)) by {
            lemma_bit_and(x, y, i);
            lemma_zero_no_bit(i);
        }
    }
}

/// Some piece of color `attacker` attacks `sq`.
pub fn is_square_attacked(pos: &Position, sq: Square, attacker: Color) -> (r: bool)
    requires
        pos.wf(),
        sq < 64,
    ensures
        r == square_attacked(pos.board@, sq as int, attacker),
{
    let ghost board = pos.board@;
    let occ = pos.occupied_all;
    proof {
        lemma_board_occ(board, occ);
    }
    let c = attacker.as_usize() * 6;
    let pawns = pos.bb[c];
    let pawn_attackers = pawn_attacks(attacker.opposite(), sq);
    proof {
        lemma_and_nonzero(pawns, pawn_attackers);
    }
    if pawns & pawn_attackers != 0 {
        proof {
            let i = choose|i: u64| i < 64 && #[trigger] bit(pawns, i) && bit(pawn_attackers, i);
            assert(attacks_from(board, i as int, sq as int, attacker));
        }
        return true;
    }
    let natt = knight_attacks(sq);
    let knights = natt & pos.bb[c + 1];
    proof {
        lemma_and_nonzero(natt, pos.bb@[c + 1]);
    }
    if knights != 0 {
        proof {
            let i = choose|i: u64| i < 64 && #[trigger] bit(natt, i) && bit(pos.bb@[c + 1], i);
            assert(attacks_from(board, i as int, sq as int, attacker));
        }
        return true;
    }
    let katt = king_attacks(sq);
    let kings = katt & pos.bb[c + 5];
    proof {
        lemma_and_nonzero(katt, pos.bb@[c + 5]);
    }
    if kings != 0 {
        proof {
            let i = choose|i: u64| i < 64 && #[trigger] bit(katt, i) && bit(pos.bb@[c + 5], i);
            assert(attacks_from(board, i as int, sq as int, attacker));
        }
        return true;
    }
    let bishops_queens = pos.bb[c + 2] | pos.bb[c + 4];
    let battacks = bishop_attacks(sq, occ);
    proof {
        lemma_and_nonzero(battacks, bishops_queens);
    }
    if battacks & bishops_queens != 0 {
        proof {
            let i = choose|i: u64| i < 64 && #[trigger] bit(battacks, i) && bit(bishops_queens, i);
            lemma_bit_or(pos.bb@[c + 2], pos.bb@[c + 4], i);
            lemma_slider_symmetric(sq as int, i as int, occ);
            assert(attacks_from(board, i as int, sq as int, attacker));
        }
        return true;
    }
    let rooks_queens = pos.bb[c + 3] | pos.bb[c + 4];
    let rattacks = rook_attacks(sq, occ);
    proof {
        lemma_and_nonzero(rattacks, rooks_queens);
    }
    if rattacks & rooks_queens != 0 {
        proof {
            let i = choose|i: u64| i < 64 && #[trigger] bit(rattacks, i) && bit(rooks_queens, i);
            lemma_bit_or(pos.bb@[c + 3], pos.bb@[c + 4], i);
            lemma_slider_symmetric(sq as int, i as int, occ);
            assert(attacks_from(board, i as int, sq as int, attacker));
        }
        return true;
    }
    proof {
        assert forall|a: int| 0 <= a < 64 implies !#[trigger] attacks_from(
            board,
            a,
            sq as int,
            attacker,
        ) by {
            let i = a as u64;
            assert(!(bit(pawns, i) && bit(pawn_attackers, i)));
            assert(!(bit(natt, i) && bit(pos.bb@[c + 1], i)));
            assert(!(bit(katt, i) && bit(pos.bb@[c + 5], i)));
            assert(!(bit(battacks, i) && bit(bishops_queens, i)));
            assert(!(bit(rattacks, i) && bit(rooks_queens, i)));
            lemma_bit_or(pos.bb@[c + 2], pos.bb@[c + 4], i);
            lemma_bit_or(pos.bb@[c + 3], pos.bb@[c + 4], i);
            lemma_slider_symmetric(sq as int, a, occ);
        }
    }
    false
}

/// Square `t` holds a piece of color `c`.
pub open spec fn has_color(board: Seq<u8>, t: int, c: Color) -> bool {
    board[t] < 12 && crate::types::spec_piece_color(board[t] as int) == c
}

/// Quiet move from `from` to `to` without promotion.
pub open spec fn mv(from: int, to: int) -> Move {
    crate::types::encode_move(from as u8, to as u8, None)
}

/// The four promotions of a pawn move, queen first.
pub open spec fn promo_moves(from: int, to: int) -> Seq<Move> {
    seq![
        crate::types::encode_move(from as u8, to as u8, Some(PieceType::Queen)),
        crate::types::encode_move(from as u8, to as u8, Some(PieceType::Rook)),
        crate::types::encode_move(from as u8, to as u8, Some(PieceType::Bishop)),
        crate::types::encode_move(from as u8, to as u8, Some(PieceType::Knight)),
    ]
}

/// Moves from `from` to the squares below `n` satisfying `pred`, in square order.
pub open spec fn target_moves(from: int, pred: spec_fn(int) -> bool, n: nat) -> Seq<Move>
    decreases n,
{
    if n == 0 {
        seq![]
    } else {
        target_moves(from, pred, (n - 1) as nat) + if pred(n - 1) {
            seq![mv(from, n - 1)]
        } else {
            seq![]
        }
    }
}

/// Concatenation, in square order, of `f(sq)` over the squares below `n` holding `code`.
pub open spec fn section(board: Seq<u8>, code: int, f: spec_fn(int) -> Seq<Move>, n: nat) -> Seq<
    Move,
>
    decreases n,
{
    if n == 0 {
        seq![]
    } else {
        section(board, code, f, (n - 1) as nat) + if board[n - 1] == code {
            f(n - 1)
        } else {
            seq![]
        }
    }
}

/// A pawn capture of color `us` from `from` to `to`: onto an enemy piece (promoting
/// on the last rank), or onto the en passant square.
pub open spec fn pawn_capture(v: PosView, from: int, to: int, promo_rank: bool) -> Seq<Move> {
    if v.board[to] == piece_code(spec_opposite(v.side), PieceType::King) {
        seq![]
    } else if has_color(v.board, to, spec_opposite(v.side)) {
        if promo_rank {
            promo_moves(from, to)
        } else {
            seq![mv(from, to)]
        }
    } else if to == v.en_passant {
        seq![mv(from, to)]
    } else {
        seq![]
    }
}

/// A white pawn's push: one step (promotions from the seventh rank), and the
/// double step from the second rank over an empty square.
pub open spec fn white_push(v: PosView, from: int) -> Seq<Move> {
    let rank = rank_of(from);
    let to = from + 8;
    if v.board[to] == 12 {
        if rank == 6 {
            promo_moves(from, to)
        } else {
            seq![mv(from, to)] + if rank == 1 && v.board[from + 16] == 12 {
                seq![mv(from, from + 16)]
            } else {
                seq![]
            }
        }
    } else {
        seq![]
    }
}

/// A black pawn's push, mirroring the white one.
pub open spec fn black_push(v: PosView, from: int) -> Seq<Move> {
    let rank = rank_of(from);
    let to = from - 8;
    if v.board[to] == 12 {
        if rank == 1 {
            promo_moves(from, to)
        } else {
            seq![mv(from, to)] + if rank == 6 && v.board[from - 16] == 12 {
                seq![mv(from, from - 16)]
            } else {
                seq![]
            }
        }
    } else {
        seq![]
    }
}

pub open spec fn white_left(v: PosView, from: int) -> Seq<Move> {
    if file_of(from) > 0 {
        pawn_capture(v, from, from + 7, rank_of(from) == 6)
    } else {
        seq![]
    }
}

pub open spec fn white_right(v: PosView, from: int) -> Seq<Move> {
    if file_of(from) < 7 {
        pawn_capture(v, from, from + 9, rank_of(from) == 6)
    } else {
        seq![]
    }
}

pub open spec fn black_left(v: PosView, from: int) -> Seq<Move> {
    if file_of(from) > 0 {
        pawn_capture(v, from, from - 9, rank_of(from) == 1)
    } else {
        seq![]
    }
}

pub open spec fn black_right(v: PosView, from: int) -> Seq<Move> {
    if file_of(from) < 7 {
        pawn_capture(v, from, from - 7, rank_of(from) == 1)
    } else {
        seq![]
    }
}

/// Pseudo-legal moves of a white pawn on `from`: push (or promotions), double
/// push from the second rank, captures to the left and to the right.
pub open spec fn white_pawn_moves(v: PosView, from: int) -> Seq<Move> {
    if rank_of(from) >= 7 {
        seq![]
    } else {
        white_push(v, from) + white_left(v, from) + white_right(v, from)
    }
}

/// Pseudo-legal moves of a black pawn on `from`, mirroring the white ones.
pub open spec fn black_pawn_moves(v: PosView, from: int) -> Seq<Move> {
    if rank_of(from) <= 0 {
        seq![]
    } else {
        black_push(v, from) + black_left(v, from) + black_right(v, from)
    }
}

pub open spec fn pawn_moves(v: PosView, from: int) -> Seq<Move> {
    if v.side == Color::White {
        white_pawn_moves(v, from)
    } else {
        black_pawn_moves(v, from)
    }
}

/// Squares a piece of type `pt` on `from` attacks and may move to: not one
/// of its own pieces, and not the opposing king.
pub open spec fn piece_target(v: PosView, pt: PieceType, from: int, t: int) -> bool {
    let occ = board_occ(v.board);
    let hits = match pt {
        PieceType::Knight => knight_hits(from, t),
        PieceType::Bishop => bishop_hits(from, t, occ),
        PieceType::Rook => rook_hits(from, t, occ),
        PieceType::Queen => bishop_hits(from, t, occ) || rook_hits(from, t, occ),
        PieceType::King => king_hits(from, t),
        PieceType::Pawn => false,
    };
    hits && !has_color(v.board, t, v.side) && v.board[t] != piece_code(spec_opposite(v.side), PieceType::King)
}

pub open spec fn target_pred(v: PosView, pt: PieceType, from: int) -> spec_fn(int) -> bool {
    |t: int| piece_target(v, pt, from, t)
}

pub open spec fn piece_moves(v: PosView, pt: PieceType, from: int) -> Seq<Move> {
    target_moves(from, target_pred(v, pt, from), 64)
}

pub open spec fn pawn_fn(v: PosView) -> spec_fn(int) -> Seq<Move> {
    |sq: int| pawn_moves(v, sq)
}

pub open spec fn piece_fn(v: PosView, pt: PieceType) -> spec_fn(int) -> Seq<Move> {
    |sq: int| piece_moves(v, pt, sq)
}

/// The lowest square holding the king of `c`.
pub open spec fn king_square_of(board: Seq<u8>, c: Color) -> int {
    choose|k: int|
        0 <= k < 64 && board[k] == piece_code(c, PieceType::King) && forall|j: int|
            0 <= j < k ==> board[j] != piece_code(c, PieceType::King)
}

/// Castling moves: the king is not in check, the castling right is held, the
/// king and that rook stand on their home squares, the squares between them
/// are empty and the king's path is not attacked.
pub open spec fn castle_moves(v: PosView, ksq: int) -> Seq<Move> {
    let them = spec_opposite(v.side);
    let b = v.board;
    if square_attacked(b, ksq, them) {
        seq![]
    } else if v.side == Color::White {
        let k = if v.castling & 1 != 0 && ksq == 4 && b[7] == 3 && b[5] == 12 && b[6] == 12 && !square_attacked(b, 5, them)
            && !square_attacked(b, 6, them) {
            seq![mv(ksq, 6)]
        } else {
            seq![]
        };
        let q = if v.castling & 2 != 0 && ksq == 4 && b[0] == 3 && b[1] == 12 && b[2] == 12 && b[3] == 12
            && !square_attacked(b, 3, them) && !square_attacked(b, 2, them) {
            seq![mv(ksq, 2)]
        } else {
            seq![]
        };
        k + q
    } else {
        let k = if v.castling & 4 != 0 && ksq == 60 && b[63] == 9 && b[61] == 12 && b[62] == 12 && !square_attacked(
            b,
            61,
            them,
        ) && !square_attacked(b, 62, them) {
            seq![mv(ksq, 62)]
        } else {
            seq![]
        };
        let q = if v.castling & 8 != 0 && ksq == 60 && b[56] == 9 && b[57] == 12 && b[58] == 12 && b[59] == 12
            && !square_attacked(b, 59, them) && !square_attacked(b, 58, them) {
            seq![mv(ksq, 58)]
        } else {
            seq![]
        };
        k + q
    }
}

/// The pseudo-legal moves of a position in generation order: pawns, knights,
/// bishops, rooks, queens (each by square), then king steps and castling.
pub open spec fn pseudo_moves(v: PosView) -> Seq<Move> {
    let us = v.side;
    let b = v.board;
    let ksq = king_square_of(b, us);
    section(b, piece_code(us, PieceType::Pawn), pawn_fn(v), 64) + section(
        b,
        piece_code(us, PieceType::Knight),
        piece_fn(v, PieceType::Knight),
        64,
    ) + section(b, piece_code(us, PieceType::Bishop), piece_fn(v, PieceType::Bishop), 64) + section(
        b,
        piece_code(us, PieceType::Rook),
        piece_fn(v, PieceType::Rook),
        64,
    ) + section(b, piece_code(us, PieceType::Queen), piece_fn(v, PieceType::Queen), 64)
        + piece_moves(v, PieceType::King, ksq) + castle_moves(v, ksq)
}

proof fn lemma_target_moves_skip(from: int, pred: spec_fn(int) -> bool, lo: nat, m: nat)
    requires
        lo <= m,
        forall|i: int| lo <= i < m ==> !#[trigger] pred(i),
    ensures
        target_moves(from, pred, m) == target_moves(from, pred, lo),
    decreases m,
{
    if m > lo {
        lemma_target_moves_skip(from, pred, lo, (m - 1) as nat);
        assert(target_moves(from, pred, m) =~= target_moves(from, pred, (m - 1) as nat));
    }
}

proof fn lemma_section_skip(board: Seq<u8>, code: int, f: spec_fn(int) -> Seq<Move>, lo: nat, m: nat)
    requires
        lo <= m,
        forall|i: int| lo <= i < m ==> board[i] != code,
    ensures
        section(board, code, f, m) == section(board, code, f, lo),
    decreases m,
{
    if m > lo {
        lemma_section_skip(board, code, f, lo, (m - 1) as nat);
        assert(section(board, code, f, m) =~= section(board, code, f, (m - 1) as nat));
    }
}

/// Appends a move from `from` to every square of `to_bb`, in square order.
fn add_moves(list: &mut MoveList, from: Square, to_bb: u64, Ghost(pred): Ghost<spec_fn(int) -> bool>)
    requires
        forall|t: u64| t < 64 ==> #[trigger] bit(to_bb, t) == pred(t as int),
    ensures
        final(list)@ == old(list)@ + target_moves(from as int, pred, 64),
{
    let mut bb = to_bb;
    let ghost mut lo: nat = 0;
    proof {
        assert(old(list)@ + target_moves(from as int, pred, 0) =~= old(list)@);
    }
    while bb != 0
        invariant
            forall|t: u64| t < 64 ==> #[trigger] bit(to_bb, t) == pred(t as int),
            lo <= 64,
            forall|t: u64| t < 64 ==> #[trigger] bit(bb, t) == (pred(t as int) && t >= lo),
            list@ == old(list)@ + target_moves(from as int, pred, lo),
        decreases bb,
    {
        let ghost obb = bb;
        let to = crate::types::pop_lsb(&mut bb);
        proof {
            assert forall|i: int| lo <= i < to implies !#[trigger] pred(i) by {
                assert(!bit(obb, i as u64));
            }
            lemma_target_moves_skip(from as int, pred, lo, to as nat);
            assert(bit(obb, to as u64));
        }
        list.push(Move::new(from, to, None));
        proof {
            assert(target_moves(from as int, pred, (to + 1) as nat) =~= target_moves(
                from as int,
                pred,
                to as nat,
            ).push(mv(from as int, to as int)));
            lo = (to + 1) as nat;
            assert(list@ =~= old(list)@ + target_moves(from as int, pred, lo));
        }
    }
    proof {
        assert forall|i: int| lo <= i < 64 implies !#[trigger] pred(i) by {
            lemma_zero_no_bit(i as u64);
        }
        lemma_target_moves_skip(from as int, pred, lo, 64);
    }
}

proof fn lemma_test_bit(x: u64, t: u64)
    requires
        t < 64,
    ensures
        (x & (1u64 << t) != 0) == bit(x, t),
{
    lemma_and_nonzero(x, 1u64 << t);
    lemma_bit_single(t, t);
    if x & (1u64 << t) != 0 {
        let i = choose|i: u64| i < 64 && #[trigger] bit(x, i) && bit(1u64 << t, i);
        lemma_bit_single(t, i);
    }
}

/// Appends the four promotions of a pawn move.
fn push_promos(list: &mut MoveList, from: Square, to: Square)
    ensures
        final(list)@ == old(list)@ + promo_moves(from as int, to as int),
{
    list.push(Move::new(from, to, Some(PieceType::Queen)));
    list.push(Move::new(from, to, Some(PieceType::Rook)));
    list.push(Move::new(from, to, Some(PieceType::Bishop)));
    list.push(Move::new(from, to, Some(PieceType::Knight)));
    assert(final(list)@ =~= old(list)@ + promo_moves(from as int, to as int));
}

/// Appends a pawn capture from `from` to `to`.
fn push_pawn_capture(pos: &Position, list: &mut MoveList, from: Square, to: Square, promo_rank: bool)
    requires
        pos.wf(),
        to < 64,
    ensures
        final(list)@ == old(list)@ + pawn_capture(pos@, from as int, to as int, promo_rank),
{
    let them = pos.side_to_move.opposite();
    let opp_occ = pos.occupied[them.as_usize()];
    proof {
        lemma_test_bit(opp_occ, to as u64);
    }
    if pos.board[to as usize] == them.as_usize() as u8 * 6 + 5 {
        assert(old(list)@ =~= old(list)@ + seq![]);
    } else if opp_occ & (1u64 << to) != 0 {
        if promo_rank {
            push_promos(list, from, to);
        } else {
            list.push(Move::new(from, to, None));
        }
    } else if to == pos.en_passant {
        list.push(Move::new(from, to, None));
    } else {
        assert(old(list)@ =~= old(list)@ + seq![]);
    }
}

fn gen_white_push(pos: &Position, list: &mut MoveList, from: Square)
    requires
        pos.wf(),
        from < 56,
    ensures
        final(list)@ == old(list)@ + white_push(pos@, from as int),
{
    let rank = square_rank(from);
    let to = from + 8;
    if pos.board[to as usize] == NO_PIECE {
        if rank == 6 {
            push_promos(list, from, to);
        } else {
            list.push(Move::new(from, to, None));
            if rank == 1 {
                let to2 = from + 16;
                if pos.board[to2 as usize] == NO_PIECE {
                    list.push(Move::new(from, to2, None));
                }
            }
        }
    }
    assert(final(list)@ =~= old(list)@ + white_push(pos@, from as int));
}

fn gen_black_push(pos: &Position, list: &mut MoveList, from: Square)
    requires
        pos.wf(),
        8 <= from < 64,
    ensures
        final(list)@ == old(list)@ + black_push(pos@, from as int),
{
    let rank = square_rank(from);
    let to = from - 8;
    if pos.board[to as usize] == NO_PIECE {
        if rank == 1 {
            push_promos(list, from, to);
        } else {
            list.push(Move::new(from, to, None));
            if rank == 6 {
                let to2 = from - 16;
                if pos.board[to2 as usize] == NO_PIECE {
                    list.push(Move::new(from, to2, None));
                }
            }
        }
    }
    assert(final(list)@ =~= old(list)@ + black_push(pos@, from as int));
}

fn gen_white_pawn(pos: &Position, list: &mut MoveList, from: Square)
    requires
        pos.wf(),
        from < 64,
    ensures
        final(list)@ == old(list)@ + white_pawn_moves(pos@, from as int),
{
    let rank = square_rank(from);
    let file = square_file(from);
    let ghost v = pos@;
    let ghost l0 = old(list)@;
    if rank < 7 {
        gen_white_push(pos, list, from);
        let ghost l1 = list@;
        if file > 0 {
            push_pawn_capture(pos, list, from, from + 7, rank == 6);
        }
        assert(list@ =~= l1 + white_left(v, from as int));
        let ghost l2 = list@;
        if file < 7 {
            push_pawn_capture(pos, list, from, from + 9, rank == 6);
        }
        assert(list@ =~= l2 + white_right(v, from as int));
        assert(list@ =~= l0 + (white_push(v, from as int) + white_left(v, from as int) + white_right(v, from as int)));
    } else {
        assert(list@ =~= l0 + white_pawn_moves(v, from as int));
    }
}

fn gen_black_pawn(pos: &Position, list: &mut MoveList, from: Square)
    requires
        pos.wf(),
        from < 64,
    ensures
        final(list)@ == old(list)@ + black_pawn_moves(pos@, from as int),
{
    let rank = square_rank(from);
    let file = square_file(from);
    let ghost v = pos@;
    let ghost l0 = old(list)@;
    if rank > 0 {
        gen_black_push(pos, list, from);
        let ghost l1 = list@;
        if file > 0 {
            push_pawn_capture(pos, list, from, from - 9, rank == 1);
        }
        assert(list@ =~= l1 + black_left(v, from as int));
        let ghost l2 = list@;
        if file < 7 {
            push_pawn_capture(pos, list, from, from - 7, rank == 1);
        }
        assert(list@ =~= l2 + black_right(v, from as int));
        assert(list@ =~= l0 + (black_push(v, from as int) + black_left(v, from as int) + black_right(v, from as int)));
    } else {
        assert(list@ =~= l0 + black_pawn_moves(v, from as int));
    }
}

/// Appends the pseudo-legal moves of the pawn on `from`.
fn gen_pawn(pos: &Position, list: &mut MoveList, from: Square)
    requires
        pos.wf(),
        from < 64,
    ensures
        final(list)@ == old(list)@ + pawn_moves(pos@, from as int),
{
    if pos.side_to_move == Color::White {
        gen_white_pawn(pos, list, from);
    } else {
        gen_black_pawn(pos, list, from);
    }
}

/// Appends the pseudo-legal moves of all pawns of the side to move, by square.
fn gen_pawns(pos: &Position, list: &mut MoveList)
    requires
        pos.wf(),
    ensures
        final(list)@ == old(list)@ + section(
            pos.board@,
            piece_code(pos.side_to_move, PieceType::Pawn),
            pawn_fn(pos@),
            64,
        ),
{
    let ghost v = pos@;
    let ghost code = piece_code(pos.side_to_move, PieceType::Pawn);
    let mut bb = pos.bb[pos.side_to_move.as_usize() * 6];
    let ghost mut lo: nat = 0;
    proof {
        assert(old(list)@ + section(v.board, code, pawn_fn(v), 0) =~= old(list)@);
    }
    while bb != 0
        invariant
            pos.wf(),
            v == pos@,
            code == piece_code(pos.side_to_move, PieceType::Pawn),
            lo <= 64,
            forall|t: u64| t < 64 ==> #[trigger] bit(bb, t) == (v.board[t as int] == code && t >= lo),
            list@ == old(list)@ + section(v.board, code, pawn_fn(v), lo),
        decreases bb,
    {
        let ghost obb = bb;
        let from = crate::types::pop_lsb(&mut bb);
        proof {
            assert forall|i: int| lo <= i < from implies v.board[i] != code by {
                assert(!bit(obb, i as u64));
            }
            lemma_section_skip(v.board, code, pawn_fn(v), lo, from as nat);
            assert(bit(obb, from as u64));
        }
        gen_pawn(pos, list, from);
        proof {
            assert(section(v.board, code, pawn_fn(v), (from + 1) as nat) =~= section(
                v.board,
                code,
                pawn_fn(v),
                from as nat,
            ) + pawn_moves(v, from as int));
            lo = (from + 1) as nat;
        }
    }
    proof {
        assert forall|i: int| lo <= i < 64 implies v.board[i] != code by {
            lemma_zero_no_bit(i as u64);
        }
        lemma_section_skip(v.board, code, pawn_fn(v), lo, 64);
    }
}

/// Appends the moves of all pieces of type `pt` (knight, bishop, rook or queen), by square.
fn gen_pieces(pos: &Position, list: &mut MoveList, pt: PieceType)
    requires
        pos.wf(),
        pt == PieceType::Knight || pt == PieceType::Bishop || pt == PieceType::Rook || pt
            == PieceType::Queen,
    ensures
        final(list)@ == old(list)@ + section(
            pos.board@,
            piece_code(pos.side_to_move, pt),
            piece_fn(pos@, pt),
            64,
        ),
{
    let ghost v = pos@;
    let ghost code = piece_code(pos.side_to_move, pt);
    let us = pos.side_to_move.as_usize();
    let occ = pos.occupied_all;
    let own_occ = pos.occupied[us];
    let enemy_king = pos.bb[(1 - us) * 6 + 5];
    proof {
        crate::movegen::lemma_board_occ(pos.board@, occ);
    }
    let mut bb = pos.bb[us * 6 + pt.as_usize()];
    let ghost mut lo: nat = 0;
    proof {
        assert(old(list)@ + section(v.board, code, piece_fn(v, pt), 0) =~= old(list)@);
    }
    while bb != 0
        invariant
            pos.wf(),
            v == pos@,
            code == piece_code(pos.side_to_move, pt),
            pt == PieceType::Knight || pt == PieceType::Bishop || pt == PieceType::Rook || pt
                == PieceType::Queen,
            occ == board_occ(v.board),
            own_occ == pos.occupied@[color_idx(pos.side_to_move)],
            enemy_king == pos.bb@[(1 - color_idx(pos.side_to_move)) * 6 + 5],
            lo <= 64,
            forall|t: u64| t < 64 ==> #[trigger] bit(bb, t) == (v.board[t as int] == code && t >= lo),
            list@ == old(list)@ + section(v.board, code, piece_fn(v, pt), lo),
        decreases bb,
    {
        let ghost obb = bb;
        let from = crate::types::pop_lsb(&mut bb);
        proof {
            assert forall|i: int| lo <= i < from implies v.board[i] != code by {
                assert(!bit(obb, i as u64));
            }
            lemma_section_skip(v.board, code, piece_fn(v, pt), lo, from as nat);
            assert(bit(obb, from as u64));
        }
        let att = match pt {
            PieceType::Knight => knight_attacks(from),
            PieceType::Bishop => bishop_attacks(from, occ),
            PieceType::Rook => rook_attacks(from, occ),
            _ => queen_attacks(from, occ),
        };
        let open = att & !own_occ;
        let targets = open & !enemy_king;
        proof {
            assert forall|t: u64| t < 64 implies #[trigger] bit(targets, t) == (target_pred(
                v,
                pt,
                from as int,
            ))(t as int) by {
                lemma_bit_and(att, !own_occ, t);
                lemma_bit_not(own_occ, t);
                lemma_bit_and(open, !enemy_king, t);
                lemma_bit_not(enemy_king, t);
            }
        }
        add_moves(list, from, targets, Ghost(target_pred(v, pt, from as int)));
        proof {
            assert(section(v.board, code, piece_fn(v, pt), (from + 1) as nat) =~= section(
                v.board,
                code,
                piece_fn(v, pt),
                from as nat,
            ) + piece_moves(v, pt, from as int));
            lo = (from + 1) as nat;
        }
    }
    proof {
        assert forall|i: int| lo <= i < 64 implies v.board[i] != code by {
            lemma_zero_no_bit(i as u64);
        }
        lemma_section_skip(v.board, code, piece_fn(v, pt), lo, 64);
    }
}

/// The lowest square holding a king of `c` is the one `king_square_of` names.
pub proof fn lemma_king_square_of(board: Seq<u8>, c: Color, k: int)
    requires
        0 <= k < 64,
        board[k] == piece_code(c, PieceType::King),
        forall|j: int| 0 <= j < k ==> board[j] != piece_code(c, PieceType::King),
    ensures
        king_square_of(board, c) == k,
{
    let k2 = king_square_of(board, c);
    assert(0 <= k2 < 64 && board[k2] == piece_code(c, PieceType::King) && forall|j: int|
        0 <= j < k2 ==> board[j] != piece_code(c, PieceType::King));
    if k2 < k {
        assert(board[k2] != piece_code(c, PieceType::King));
    }
    if k < k2 {
        assert(board[k] != piece_code(c, PieceType::King));
    }
}

fn gen_castles(pos: &Position, list: &mut MoveList, king_sq: Square)
    requires
        pos.wf(),
        king_sq < 64,
    ensures
        final(list)@ == old(list)@ + castle_moves(pos@, king_sq as int),
{
    let us = pos.side_to_move;
    let them = us.opposite();
    let ghost l0 = old(list)@;
    if !is_square_attacked(pos, king_sq, them) {
        if us == Color::White {
            if pos.castling & crate::types::CASTLE_WK != 0 && king_sq == 4 && pos.board[7] == 3 {
                if pos.board[5] == NO_PIECE && pos.board[6] == NO_PIECE {
                    if !is_square_attacked(pos, 5, them) && !is_square_attacked(pos, 6, them) {
                        list.push(Move::new(king_sq, 6, None));
                    }
                }
            }
            let ghost l1 = list@;
            if pos.castling & crate::types::CASTLE_WQ != 0 && king_sq == 4 && pos.board[0] == 3 {
                if pos.board[1] == NO_PIECE && pos.board[2] == NO_PIECE && pos.board[3]
                    == NO_PIECE {
                    if !is_square_attacked(pos, 3, them) && !is_square_attacked(pos, 2, them) {
                        list.push(Move::new(king_sq, 2, None));
                    }
                }
            }
            assert(list@ =~= l0 + castle_moves(pos@, king_sq as int));
        } else {
            if pos.castling & crate::types::CASTLE_BK != 0 && king_sq == 60 && pos.board[63] == 9 {
                if pos.board[61] == NO_PIECE && pos.board[62] == NO_PIECE {
                    if !is_square_attacked(pos, 61, them) && !is_square_attacked(pos, 62, them) {
                        list.push(Move::new(king_sq, 62, None));
                    }
                }
            }
            if pos.castling & crate::types::CASTLE_BQ != 0 && king_sq == 60 && pos.board[56] == 9 {
                if pos.board[57] == NO_PIECE && pos.board[58] == NO_PIECE && pos.board[59]
                    == NO_PIECE {
                    if !is_square_attacked(pos, 59, them) && !is_square_attacked(pos, 58, them) {
                        list.push(Move::new(king_sq, 58, None));
                    }
                }
            }
            assert(list@ =~= l0 + castle_moves(pos@, king_sq as int));
        }
    } else {
        assert(list@ =~= l0 + castle_moves(pos@, king_sq as int));
    }
}

/// Appends the pseudo-legal moves of all pieces of the side to move, in generation
/// order (the list is cleared first); the moves may leave the king in check.
pub fn generate_pseudo_legal(pos: &Position, list: &mut MoveList)
    requires
        pos.wf(),
        has_king(pos.board@, pos.side_to_move),
    ensures
        final(list)@ == pseudo_moves(pos@),
{
    let ghost v = pos@;
    list.clear();
    gen_pawns(pos, list);
    gen_pieces(pos, list, PieceType::Knight);
    gen_pieces(pos, list, PieceType::Bishop);
    gen_pieces(pos, list, PieceType::Rook);
    gen_pieces(pos, list, PieceType::Queen);
    let us = pos.side_to_move;
    let king_sq = pos.king_square(us);
    proof {
        lemma_king_square_of(pos.board@, us, king_sq as int);
    }
    let own_occ = pos.occupied[us.as_usize()];
    let enemy_king = pos.bb[(1 - us.as_usize()) * 6 + 5];
    let katt = king_attacks(king_sq);
    let open = katt & !own_occ;
    let king_att = open & !enemy_king;
    proof {
        assert forall|t: u64| t < 64 implies #[trigger] bit(king_att, t) == (target_pred(
            v,
            PieceType::King,
            king_sq as int,
        ))(t as int) by {
            lemma_bit_and(katt, !own_occ, t);
            lemma_bit_not(own_occ, t);
            lemma_bit_and(open, !enemy_king, t);
            lemma_bit_not(enemy_king, t);
        }
    }
    add_moves(list, king_sq, king_att, Ghost(target_pred(v, PieceType::King, king_sq as int)));
    gen_castles(pos, list, king_sq);
    assert(list@ =~= pseudo_moves(v));
}

/// After playing `m` on `v`, the king of the side that moved is not attacked.
pub open spec fn legal_after(v: PosView, m: Move) -> bool {
    let c = spec_make(v, m);
    !square_attacked(c.board, king_square_of(c.board, v.side), spec_opposite(v.side))
}

pub open spec fn legal_pred(v: PosView) -> spec_fn(Move) -> bool {
    |m: Move| legal_after(v, m)
}

/// The legal moves of a position: the pseudo-legal moves, in generation order,
/// that do not leave the mover's king attacked.
pub open spec fn legal_moves(v: PosView) -> Seq<Move> {
    pseudo_moves(v).filter(legal_pred(v))
}

proof fn lemma_filter_step(s: Seq<Move>, p: spec_fn(Move) -> bool, i: int)
    requires
        0 <= i < s.len(),
    ensures
        s.take(i + 1).filter(p) == s.take(i).filter(p) + if p(s[i]) {
            seq![s[i]]
        } else {
            seq![]
        },
{
    reveal_with_fuel(Seq::<_>::filter, 1);
    assert(s.take(i + 1).drop_last() =~= s.take(i));
    if p(s[i]) {
        assert(s.take(i + 1).filter(p) =~= s.take(i).filter(p).push(s[i]));
    } else {
        assert(s.take(i + 1).filter(p) =~= s.take(i).filter(p));
    }
}

/// The legal moves of the side to move, in generation order (the list is
/// cleared first). The position is left as it was.
pub fn generate_legal(pos: &mut Position, list: &mut MoveList)
    requires
        old(pos).wf(),
        gen_ready(old(pos)@),
    ensures
        final(pos).wf(),
        final(pos)@ == old(pos)@,
        final(list)@ == legal_moves(old(pos)@),
{
    let ghost v = pos@;
    let mut pseudo = MoveList::new();
    proof {
        let k = choose|i: int| 0 <= i < 64 && #[trigger] v.board[i] == piece_code(v.side, PieceType::King);
    }
    generate_pseudo_legal(pos, &mut pseudo);
    list.clear();
    let us = pos.side_to_move;
    let n = pseudo.len();
    let mut i: usize = 0;
    proof {
        assert(pseudo@.take(0).filter(legal_pred(v)) =~= Seq::<Move>::empty());
    }
    while i < n
        invariant
            pos.wf(),
            pos@ == v,
            gen_ready(v),
            us == v.side,
            pseudo@ == pseudo_moves(v),
            n == pseudo@.len(),
            i <= n,
            list@ == pseudo@.take(i as int).filter(legal_pred(v)),
        decreases n - i,
    {
        let mv = pseudo.get(i);
        proof {
            assert(pseudo@.contains(mv)) by {
                assert(pseudo@[i as int] == mv);
            }
            lemma_pseudo_facts(v, mv);
            lemma_facts_reversible(v, mv);
            lemma_unmake_undoes_make(v, mv);
            lemma_filter_step(pseudo@, legal_pred(v), i as int);
        }
        pos.make_move(mv);
        let king_sq = pos.king_square(us);
        proof {
            lemma_king_square_of(pos.board@, us, king_sq as int);
        }
        let in_check = is_square_attacked(pos, king_sq, pos.side_to_move);
        pos.unmake_move(mv);
        if !in_check {
            list.push(mv);
        }
        i += 1;
    }
    assert(pseudo@.take(n as int) =~= pseudo@);
}

/// Pseudo-legal moves that capture (onto a piece, or a pawn onto the en
/// passant square) or promote.
pub open spec fn capture_or_promo(v: PosView, m: Move) -> bool {
    let from = crate::types::move_from(m) as int;
    let to = crate::types::move_to(m) as int;
    let pawn = v.board[from] == 0 || v.board[from] == 6;
    v.board[to] != 12 || (pawn && to == v.en_passant) || crate::types::move_promo(m) is Some
}

pub open spec fn capture_pred(v: PosView) -> spec_fn(Move) -> bool {
    |m: Move| capture_or_promo(v, m)
}

/// The pseudo-legal captures and promotions, in generation order.
pub fn generate_captures(pos: &Position, list: &mut MoveList)
    requires
        pos.wf(),
        has_king(pos.board@, pos.side_to_move),
    ensures
        final(list)@ == pseudo_moves(pos@).filter(capture_pred(pos@)),
{
    let ghost v = pos@;
    let mut pseudo = MoveList::new();
    generate_pseudo_legal(pos, &mut pseudo);
    list.clear();
    let n = pseudo.len();
    let mut i: usize = 0;
    proof {
        assert(pseudo@.take(0).filter(capture_pred(v)) =~= Seq::<Move>::empty());
    }
    while i < n
        invariant
            pos.wf(),
            pos@ == v,
            pseudo@ == pseudo_moves(v),
            n == pseudo@.len(),
            i <= n,
            list@ == pseudo@.take(i as int).filter(capture_pred(v)),
        decreases n - i,
    {
        let mv = pseudo.get(i);
        proof {
            lemma_filter_step(pseudo@, capture_pred(v), i as int);
        }
        let to = mv.to_sq();
        let from = mv.from_sq();
        let mover = pos.board[from as usize];
        let is_capture = pos.board[to as usize] != NO_PIECE || ((mover == 0 || mover == 6) && to
            == pos.en_passant);
        let is_promo = mv.is_promotion();
        if is_capture || is_promo {
            list.push(mv);
        }
        i += 1;
    }
    assert(pseudo@.take(n as int) =~= pseudo@);
}

/// Whether `mv` is one of the legal moves. The position is left as it was.
pub fn is_legal_move(pos: &mut Position, mv: Move) -> (r: bool)
    requires
        old(pos).wf(),
        gen_ready(old(pos)@),
    ensures
        final(pos).wf(),
        final(pos)@ == old(pos)@,
        r == legal_moves(old(pos)@).contains(mv),
{
    let mut list = MoveList::new();
    generate_legal(pos, &mut list);
    let n = list.len();
    let mut i: usize = 0;
    while i < n
        invariant
            pos.wf(),
            pos@ == old(pos)@,
            list@ == legal_moves(old(pos)@),
            n == list@.len(),
            i <= n,
            forall|j: int| 0 <= j < i ==> list@[j] != mv,
        decreases n - i,
    {
        let m = list.get(i);
        if m.0 == mv.0 {
            assert(list@[i as int] == mv);
            return true;
        }
        i += 1;
    }
    false
}

} // verus!
