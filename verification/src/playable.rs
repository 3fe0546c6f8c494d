//! Which positions the move generator can work on, and why its moves can be
//! played and taken back there.
use vstd::prelude::*;
use crate::types::{Color, PieceType, Move, piece_code, spec_opposite, file_of, rank_of, move_promo, lemma_move_roundtrip};
use crate::position::{PosView, view_ok, move_reversible, spec_board_after, has_king, moving_type, ep_capture_square, castle_rook_squares, is_castle_shape, abs_diff, mv_from, mv_to, spec_make, board_codes_ok, lemma_castling_after_le};
use crate::movegen::{pseudo_moves, section, target_moves, target_pred, piece_target, pawn_fn, piece_fn, pawn_moves, piece_moves, white_pawn_moves, black_pawn_moves, white_push, black_push, white_left, white_right, black_left, black_right, pawn_capture, promo_moves, mv, castle_moves, king_square_of, has_color, attacks_from, square_attacked, legal_moves, legal_pred, legal_after, ray_hit, pawn_hits, ray_hit_at, step, abs};

verus! {

/// Exactly one king of color `c` is on the board.
pub open spec fn one_king(board: Seq<u8>, c: Color) -> bool {
    &&& has_king(board, c)
    &&& forall|i: int, j: int|
        0 <= i < 64 && 0 <= j < 64 && board[i] == piece_code(c, PieceType::King) && board[j]
            == piece_code(c, PieceType::King) ==> i == j
}

/// The en passant square, if any, is empty, on the rank behind the pawn that just
/// made a double step, and that pawn stands in front of it.
pub open spec fn ep_sane(v: PosView) -> bool {
    let ep = v.en_passant as int;
    ep == 64 || (0 <= ep < 64 && v.board[ep] == 12 && rank_of(ep) == (if v.side == Color::White {
        5int
    } else {
        2int
    }) && v.board[ep_capture_square(v.side, ep)] == piece_code(spec_opposite(v.side), PieceType::Pawn))
}

/// A pawn of color `c` on `s` could move to `t`: one diagonal step forward,
/// or one or two squares straight ahead.
pub open spec fn pawn_reach(c: Color, s: int, t: int) -> bool {
    ||| pawn_hits(c, s, t)
    ||| t == s + (if c == Color::White { 8int } else { -8int })
    ||| t == s + (if c == Color::White { 16int } else { -16int })
}

/// The en passant square is sane, or no pawn of the side to move could move
/// onto it. `make_move` takes any pawn arriving on the en passant square as
/// an en passant capture and clears the square behind it; with a stray square
/// that a pawn can reach, that clears a square holding no enemy pawn (or the
/// pawn's own origin) while the enemy pawn bitboard is toggled there, so the
/// board and its bitboards part ways and taking the move back does not
/// restore the position.
pub open spec fn ep_ok(v: PosView) -> bool {
    ep_sane(v) || forall|s: int|
        0 <= s < 64 && v.board[s] == piece_code(v.side, PieceType::Pawn) ==> !#[trigger] pawn_reach(
            v.side,
            s,
            v.en_passant as int,
        )
}

/// A pawn of the side to move that could move onto the en passant square
/// makes it a sane one.
proof fn lemma_ep_reached(v: PosView, s: int)
    requires
        ep_ok(v),
        0 <= s < 64,
        v.board[s] == piece_code(v.side, PieceType::Pawn),
        pawn_reach(v.side, s, v.en_passant as int),
    ensures
        ep_sane(v),
{
}

/// A position the move generator can work on: consistent, one king for the side
/// to move, an en passant square no pawn could misuse, and room in the move
/// counter.
pub open spec fn gen_ready(v: PosView) -> bool {
    &&& view_ok(v)
    &&& one_king(v.board, v.side)
    &&& ep_ok(v)
    &&& (v.side == Color::Black ==> v.fullmove < 65535)
}

pub proof fn lemma_target_moves_contains(from: int, pred: spec_fn(int) -> bool, n: nat, m: Move)
    requires
        target_moves(from, pred, n).contains(m),
    ensures
        exists|t: int| 0 <= t < n && #[trigger] pred(t) && m == mv(from, t),
    decreases n,
{
    if n > 0 {
        let prev = target_moves(from, pred, (n - 1) as nat);
        let last = if pred(n - 1) {
            seq![mv(from, n - 1)]
        } else {
            seq![]
        };
        assert(target_moves(from, pred, n) == prev + last);
        let i = choose|i: int| 0 <= i < (prev + last).len() && (prev + last)[i] == m;
        if i < prev.len() {
            assert(prev[i] == m);
            lemma_target_moves_contains(from, pred, (n - 1) as nat, m);
        } else {
            assert(pred(n - 1));
        }
    }
}

pub proof fn lemma_section_contains(
    board: Seq<u8>,
    code: int,
    f: spec_fn(int) -> Seq<Move>,
    n: nat,
    m: Move,
)
    requires
        section(board, code, f, n).contains(m),
    ensures
        exists|sq: int| 0 <= sq < n && board[sq] == code && #[trigger] f(sq).contains(m),
    decreases n,
{
    if n > 0 {
        let prev = section(board, code, f, (n - 1) as nat);
        let last = if board[n - 1] == code {
            f(n - 1)
        } else {
            seq![]
        };
        assert(section(board, code, f, n) == prev + last);
        let i = choose|i: int| 0 <= i < (prev + last).len() && (prev + last)[i] == m;
        if i < prev.len() {
            assert(prev[i] == m);
            lemma_section_contains(board, code, f, (n - 1) as nat, m);
        } else {
            assert(last[i - prev.len()] == m);
            assert(f(n - 1).contains(m));
        }
    }
}

/// Decoding the fields of a generated move.
proof fn lemma_mv_fields(from: int, to: int)
    requires
        0 <= from < 64,
        0 <= to < 64,
    ensures
        mv_from(mv(from, to)) == from,
        mv_to(mv(from, to)) == to,
        move_promo(mv(from, to)) is None,
{
    lemma_move_roundtrip(from as u8, to as u8, None);
}

proof fn lemma_promo_fields(from: int, to: int, m: Move)
    requires
        0 <= from < 64,
        0 <= to < 64,
        promo_moves(from, to).contains(m),
    ensures
        mv_from(m) == from,
        mv_to(m) == to,
{
    let i = choose|i: int| 0 <= i < 4 && promo_moves(from, to)[i] == m;
    lemma_move_roundtrip(from as u8, to as u8, Some(PieceType::Queen));
    lemma_move_roundtrip(from as u8, to as u8, Some(PieceType::Rook));
    lemma_move_roundtrip(from as u8, to as u8, Some(PieceType::Bishop));
    lemma_move_roundtrip(from as u8, to as u8, Some(PieceType::Knight));
}

/// What a generated move is like: it leaves an own piece's square for another
/// square not holding an own piece; promotions are pawn moves to the last rank;
/// a pawn reaching the en passant square does so by a diagonal step; only
/// castling moves the king across two files, and then to a castling square.
pub open spec fn move_facts(v: PosView, m: Move) -> bool {
    let from = mv_from(m);
    let to = mv_to(m);
    let pt = moving_type(v, m);
    &&& 0 <= from < 64
    &&& 0 <= to < 64
    &&& from != to
    &&& has_color(v.board, from, v.side)
    &&& !has_color(v.board, to, v.side)
    &&& move_promo(m) is Some ==> pt == PieceType::Pawn && rank_of(to) == (if v.side
        == Color::White {
        7int
    } else {
        0int
    })
    &&& (pt == PieceType::Pawn && abs_diff(to, from) == 16) ==> (if v.side == Color::White {
        rank_of(from) == 1 && to == from + 16 && v.board[from + 8] == 12
    } else {
        rank_of(from) == 6 && to == from - 16 && v.board[from - 8] == 12
    })
    &&& has_color(v.board, to, spec_opposite(v.side)) ==> attacks_from(v.board, from, to, v.side)
    &&& (pt == PieceType::Pawn && to == v.en_passant && v.board[to] == 12) ==> abs(file_of(to)
        - file_of(from)) == 1
    &&& (pt == PieceType::Pawn && to == v.en_passant) ==> ep_sane(v)
    &&& is_castle_shape(pt, from, to) ==> match castle_rook_squares(v.side, to) {
        Some((rf, rt)) => v.board[rf] == piece_code(v.side, PieceType::Rook) && v.board[rt] == 12,
        None => false,
    }
}

/// A move with these facts can be played and taken back on a generator-ready
/// position, and the mover keeps its king.
pub proof fn lemma_facts_reversible(v: PosView, m: Move)
    requires
        gen_ready(v),
        move_facts(v, m),
    ensures
        move_reversible(v, m),
        has_king(spec_board_after(v, m), v.side),
{
    let from = mv_from(m);
    let to = mv_to(m);
    let us = v.side;
    let pt = moving_type(v, m);
    let kc = piece_code(us, PieceType::King);
    let k = choose|i: int| 0 <= i < 64 && #[trigger] v.board[i] == kc;
    let after = spec_board_after(v, m);
    if pt == PieceType::King {
        assert(after[to] == kc);
    } else {
        assert(v.board[from] != kc);
        assert(to != k);
        assert(after[k] == kc);
    }
}

/// The square of the only king of color `c`.
proof fn lemma_one_king_square(board: Seq<u8>, c: Color, k: int)
    requires
        one_king(board, c),
        0 <= k < 64,
        board[k] == piece_code(c, PieceType::King),
    ensures
        king_square_of(board, c) == k,
{
    assert(forall|i: int| 0 <= i < k ==> board[i] != piece_code(c, PieceType::King));
    crate::movegen::lemma_king_square_of(board, c, k);
}

#[verifier::spinoff_prover]
#[verifier::rlimit(40)]
proof fn lemma_pawn_facts(v: PosView, from: int, m: Move)
    requires
        gen_ready(v),
        0 <= from < 64,
        v.board[from] == piece_code(v.side, PieceType::Pawn),
        pawn_moves(v, from).contains(m),
    ensures
        move_facts(v, m),
{
    let us = v.side;
    if pawn_reach(us, from, v.en_passant as int) {
        lemma_ep_reached(v, from);
    }
    if us == Color::White {
        let p = white_push(v, from);
        let l = white_left(v, from);
        let r = white_right(v, from);
        assert(rank_of(from) < 7);
        assert(white_pawn_moves(v, from) == p + l + r);
        let i = choose|i: int| 0 <= i < (p + l + r).len() && (p + l + r)[i] == m;
        if i < p.len() {
            assert(p.contains(m));
            let to = from + 8;
            if rank_of(from) == 6 {
                lemma_promo_fields(from, to, m);
            } else if p[i] == mv(from, to) {
                lemma_mv_fields(from, to);
            } else {
                lemma_mv_fields(from, from + 16);
            }
        } else if i < p.len() + l.len() {
            assert(l[i - p.len()] == m);
            let to = from + 7;
            if v.board[to] != piece_code(spec_opposite(us), PieceType::King) && has_color(v.board, to, spec_opposite(us)) && rank_of(from) == 6 {
                assert(promo_moves(from, to).contains(m));
                lemma_promo_fields(from, to, m);
            } else {
                lemma_mv_fields(from, to);
            }
        } else {
            assert(r[i - p.len() - l.len()] == m);
            let to = from + 9;
            if v.board[to] != piece_code(spec_opposite(us), PieceType::King) && has_color(v.board, to, spec_opposite(us)) && rank_of(from) == 6 {
                assert(promo_moves(from, to).contains(m));
                lemma_promo_fields(from, to, m);
            } else {
                lemma_mv_fields(from, to);
            }
        }
    } else {
        let p = black_push(v, from);
        let l = black_left(v, from);
        let r = black_right(v, from);
        assert(rank_of(from) > 0);
        assert(black_pawn_moves(v, from) == p + l + r);
        let i = choose|i: int| 0 <= i < (p + l + r).len() && (p + l + r)[i] == m;
        if i < p.len() {
            assert(p.contains(m));
            let to = from - 8;
            if rank_of(from) == 1 {
                lemma_promo_fields(from, to, m);
            } else if p[i] == mv(from, to) {
                lemma_mv_fields(from, to);
            } else {
                lemma_mv_fields(from, from - 16);
            }
        } else if i < p.len() + l.len() {
            assert(l[i - p.len()] == m);
            let to = from - 9;
            if v.board[to] != piece_code(spec_opposite(us), PieceType::King) && has_color(v.board, to, spec_opposite(us)) && rank_of(from) == 1 {
                assert(promo_moves(from, to).contains(m));
                lemma_promo_fields(from, to, m);
            } else {
                lemma_mv_fields(from, to);
            }
        } else {
            assert(r[i - p.len() - l.len()] == m);
            let to = from - 7;
            if v.board[to] != piece_code(spec_opposite(us), PieceType::King) && has_color(v.board, to, spec_opposite(us)) && rank_of(from) == 1 {
                assert(promo_moves(from, to).contains(m));
                lemma_promo_fields(from, to, m);
            } else {
                lemma_mv_fields(from, to);
            }
        }
    }
}

proof fn lemma_concat_contains(a: Seq<Move>, b: Seq<Move>, m: Move)
    requires
        (a + b).contains(m),
    ensures
        a.contains(m) || b.contains(m),
{
    let i = choose|i: int| 0 <= i < (a + b).len() && (a + b)[i] == m;
    if i < a.len() {
        assert(a[i] == m);
    } else {
        assert(b[i - a.len()] == m);
    }
}

proof fn lemma_ray_moves_away(s: int, t: int, dr: int, df: int, occ: u64)
    requires
        0 <= s < 64,
        0 <= t < 64,
        -1 <= dr <= 1,
        -1 <= df <= 1,
        !(dr == 0 && df == 0),
        ray_hit(s, t, dr, df, occ),
    ensures
        t != s,
        abs(file_of(t) - file_of(s)) != 2 || df != 0,
{
    let k = choose|k: int| #[trigger] ray_hit_at(s, t, dr, df, occ, k);
    assert(t == (rank_of(s) + step(k, dr)) * 8 + (file_of(s) + step(k, df)));
    assert(rank_of(t) == rank_of(s) + step(k, dr));
    assert(file_of(t) == file_of(s) + step(k, df));
}

proof fn lemma_piece_facts(v: PosView, pt: PieceType, from: int, m: Move)
    requires
        gen_ready(v),
        0 <= from < 64,
        pt != PieceType::Pawn,
        v.board[from] == piece_code(v.side, pt),
        piece_moves(v, pt, from).contains(m),
    ensures
        move_facts(v, m),
{
    lemma_target_moves_contains(from, target_pred(v, pt, from), 64, m);
    let t = choose|t: int| 0 <= t < 64 && #[trigger] (target_pred(v, pt, from))(t) && m == mv(from, t);
    assert(piece_target(v, pt, from, t));
    lemma_mv_fields(from, t);
    let occ = crate::movegen::board_occ(v.board);
    if pt == PieceType::Bishop {
        if ray_hit(from, t, 1, 1, occ) { lemma_ray_moves_away(from, t, 1, 1, occ); }
        if ray_hit(from, t, 1, -1, occ) { lemma_ray_moves_away(from, t, 1, -1, occ); }
        if ray_hit(from, t, -1, 1, occ) { lemma_ray_moves_away(from, t, -1, 1, occ); }
        if ray_hit(from, t, -1, -1, occ) { lemma_ray_moves_away(from, t, -1, -1, occ); }
    } else if pt == PieceType::Rook || pt == PieceType::Queen {
        if ray_hit(from, t, 1, 1, occ) { lemma_ray_moves_away(from, t, 1, 1, occ); }
        if ray_hit(from, t, 1, -1, occ) { lemma_ray_moves_away(from, t, 1, -1, occ); }
        if ray_hit(from, t, -1, 1, occ) { lemma_ray_moves_away(from, t, -1, 1, occ); }
        if ray_hit(from, t, -1, -1, occ) { lemma_ray_moves_away(from, t, -1, -1, occ); }
        if ray_hit(from, t, 1, 0, occ) { lemma_ray_moves_away(from, t, 1, 0, occ); }
        if ray_hit(from, t, -1, 0, occ) { lemma_ray_moves_away(from, t, -1, 0, occ); }
        if ray_hit(from, t, 0, 1, occ) { lemma_ray_moves_away(from, t, 0, 1, occ); }
        if ray_hit(from, t, 0, -1, occ) { lemma_ray_moves_away(from, t, 0, -1, occ); }
    }
}

proof fn lemma_castle_facts(v: PosView, ksq: int, m: Move)
    requires
        gen_ready(v),
        ksq == king_square_of(v.board, v.side),
        castle_moves(v, ksq).contains(m),
    ensures
        move_facts(v, m),
{
    let us = v.side;
    let kc = piece_code(us, PieceType::King);
    if us == Color::White {
        if v.castling & 1 != 0 || v.castling & 2 != 0 {
            lemma_one_king_square(v.board, us, 4);
        }
    } else {
        if v.castling & 4 != 0 || v.castling & 8 != 0 {
            lemma_one_king_square(v.board, us, 60);
        }
    }
    let c = castle_moves(v, ksq);
    let i = choose|i: int| 0 <= i < c.len() && c[i] == m;
    if us == Color::White {
        lemma_mv_fields(4, 6);
        lemma_mv_fields(4, 2);
    } else {
        lemma_mv_fields(60, 62);
        lemma_mv_fields(60, 58);
    }
}

/// Every generated pseudo-legal move has the move facts.
pub proof fn lemma_pseudo_facts(v: PosView, m: Move)
    requires
        gen_ready(v),
        pseudo_moves(v).contains(m),
    ensures
        move_facts(v, m),
{
    let us = v.side;
    let b = v.board;
    let ksq = king_square_of(b, us);
    let sp = section(b, piece_code(us, PieceType::Pawn), pawn_fn(v), 64);
    let sn = section(b, piece_code(us, PieceType::Knight), piece_fn(v, PieceType::Knight), 64);
    let sb = section(b, piece_code(us, PieceType::Bishop), piece_fn(v, PieceType::Bishop), 64);
    let sr = section(b, piece_code(us, PieceType::Rook), piece_fn(v, PieceType::Rook), 64);
    let sq = section(b, piece_code(us, PieceType::Queen), piece_fn(v, PieceType::Queen), 64);
    let km = piece_moves(v, PieceType::King, ksq);
    let cm = castle_moves(v, ksq);
    assert(pseudo_moves(v) == sp + sn + sb + sr + sq + km + cm);
    lemma_concat_contains(sp + sn + sb + sr + sq + km, cm, m);
    if cm.contains(m) {
        lemma_castle_facts(v, ksq, m);
        return;
    }
    lemma_concat_contains(sp + sn + sb + sr + sq, km, m);
    if km.contains(m) {
        let w = choose|i: int| 0 <= i < 64 && #[trigger] b[i] == piece_code(us, PieceType::King);
        lemma_one_king_square(b, us, w);
        lemma_piece_facts(v, PieceType::King, ksq, m);
        return;
    }
    lemma_concat_contains(sp + sn + sb + sr, sq, m);
    if sq.contains(m) {
        lemma_section_contains(b, piece_code(us, PieceType::Queen), piece_fn(v, PieceType::Queen), 64, m);
        let f = choose|f: int| 0 <= f < 64 && b[f] == piece_code(us, PieceType::Queen) && #[trigger] (piece_fn(v, PieceType::Queen))(f).contains(m);
        lemma_piece_facts(v, PieceType::Queen, f, m);
        return;
    }
    lemma_concat_contains(sp + sn + sb, sr, m);
    if sr.contains(m) {
        lemma_section_contains(b, piece_code(us, PieceType::Rook), piece_fn(v, PieceType::Rook), 64, m);
        let f = choose|f: int| 0 <= f < 64 && b[f] == piece_code(us, PieceType::Rook) && #[trigger] (piece_fn(v, PieceType::Rook))(f).contains(m);
        lemma_piece_facts(v, PieceType::Rook, f, m);
        return;
    }
    lemma_concat_contains(sp + sn, sb, m);
    if sb.contains(m) {
        lemma_section_contains(b, piece_code(us, PieceType::Bishop), piece_fn(v, PieceType::Bishop), 64, m);
        let f = choose|f: int| 0 <= f < 64 && b[f] == piece_code(us, PieceType::Bishop) && #[trigger] (piece_fn(v, PieceType::Bishop))(f).contains(m);
        lemma_piece_facts(v, PieceType::Bishop, f, m);
        return;
    }
    lemma_concat_contains(sp, sn, m);
    if sn.contains(m) {
        lemma_section_contains(b, piece_code(us, PieceType::Knight), piece_fn(v, PieceType::Knight), 64, m);
        let f = choose|f: int| 0 <= f < 64 && b[f] == piece_code(us, PieceType::Knight) && #[trigger] (piece_fn(v, PieceType::Knight))(f).contains(m);
        lemma_piece_facts(v, PieceType::Knight, f, m);
        return;
    }
    lemma_section_contains(b, piece_code(us, PieceType::Pawn), pawn_fn(v), 64, m);
    let f = choose|f: int| 0 <= f < 64 && b[f] == piece_code(us, PieceType::Pawn) && #[trigger] (pawn_fn(v))(f).contains(m);
    lemma_pawn_facts(v, f, m);
}

/// Both kings are on the board once each, and the side not to move is not in check.
pub open spec fn playable(v: PosView) -> bool {
    &&& gen_ready(v)
    &&& one_king(v.board, spec_opposite(v.side))
    &&& !square_attacked(v.board, king_square_of(v.board, spec_opposite(v.side)), v.side)
}

/// Playing a legal move on a playable position gives a playable position.
#[verifier::spinoff_prover]
#[verifier::rlimit(40)]
pub proof fn lemma_legal_move_keeps_playable(v: PosView, m: Move)
    requires
        playable(v),
        legal_moves(v).contains(m),
        v.fullmove < 65535,
    ensures
        playable(spec_make(v, m)),
{
    broadcast use vstd::seq_lib::group_filter_ensures;

    let us = v.side;
    let them = spec_opposite(us);
    let c = spec_make(v, m);
    pseudo_moves(v).lemma_filter_contains_rev(legal_pred(v), m);
    let idx = choose|i: int| 0 <= i < legal_moves(v).len() && legal_moves(v)[i] == m;
    assert(legal_after(v, m));
    lemma_pseudo_facts(v, m);
    lemma_facts_reversible(v, m);
    let from = mv_from(m);
    let to = mv_to(m);
    let pt = moving_type(v, m);
    let b = v.board;
    let nb = c.board;
    // view consistency
    lemma_castling_after_le(v, m);
    assert(board_codes_ok(nb));
    // the kings
    let ku = choose|i: int| 0 <= i < 64 && #[trigger] b[i] == piece_code(us, PieceType::King);
    let kt = choose|i: int| 0 <= i < 64 && #[trigger] b[i] == piece_code(them, PieceType::King);
    lemma_one_king_square(b, them, kt);
    assert(to != kt) by {
        if to == kt {
            assert(has_color(b, to, them));
            assert(attacks_from(b, from, kt, us));
        }
    }
    assert(nb[kt] == piece_code(them, PieceType::King));
    assert(one_king(nb, them));
    let nku = if pt == PieceType::King { to } else { ku };
    assert(nb[nku] == piece_code(us, PieceType::King));
    assert(one_king(nb, us));
    lemma_one_king_square(nb, us, nku);
    // en passant
    assert(ep_sane(c));
}

/// Where a generated move lands: an empty square, or one its piece attacks.
pub open spec fn lands_fairly(v: PosView, m: Move) -> bool {
    v.board[mv_to(m)] == 12 || attacks_from(v.board, mv_from(m), mv_to(m), v.side)
}

proof fn lemma_pawn_capture_target(v: PosView, from: int, to: int, promo_rank: bool, m: Move)
    requires
        gen_ready(v),
        0 <= from < 64,
        0 <= to < 64,
        v.board[from] == piece_code(v.side, PieceType::Pawn),
        pawn_hits(v.side, from, to),
        pawn_capture(v, from, to, promo_rank).contains(m),
    ensures
        lands_fairly(v, m),
{
    if has_color(v.board, to, spec_opposite(v.side)) && promo_rank {
        lemma_promo_fields(from, to, m);
    } else {
        lemma_mv_fields(from, to);
    }
}

proof fn lemma_pawn_target(v: PosView, from: int, m: Move)
    requires
        gen_ready(v),
        0 <= from < 64,
        v.board[from] == piece_code(v.side, PieceType::Pawn),
        pawn_moves(v, from).contains(m),
    ensures
        lands_fairly(v, m),
{
    let us = v.side;
    if us == Color::White {
        let p = white_push(v, from);
        let l = white_left(v, from);
        let r = white_right(v, from);
        assert(white_pawn_moves(v, from) == p + l + r);
        lemma_concat_contains(p + l, r, m);
        if r.contains(m) {
            lemma_pawn_capture_target(v, from, from + 9, rank_of(from) == 6, m);
            return;
        }
        lemma_concat_contains(p, l, m);
        if l.contains(m) {
            lemma_pawn_capture_target(v, from, from + 7, rank_of(from) == 6, m);
            return;
        }
        let i = choose|i: int| 0 <= i < p.len() && p[i] == m;
        let to = from + 8;
        if rank_of(from) == 6 {
            lemma_promo_fields(from, to, m);
        } else if p[i] == mv(from, to) {
            lemma_mv_fields(from, to);
        } else {
            lemma_mv_fields(from, from + 16);
        }
    } else {
        let p = black_push(v, from);
        let l = black_left(v, from);
        let r = black_right(v, from);
        assert(black_pawn_moves(v, from) == p + l + r);
        lemma_concat_contains(p + l, r, m);
        if r.contains(m) {
            lemma_pawn_capture_target(v, from, from - 7, rank_of(from) == 1, m);
            return;
        }
        lemma_concat_contains(p, l, m);
        if l.contains(m) {
            lemma_pawn_capture_target(v, from, from - 9, rank_of(from) == 1, m);
            return;
        }
        let i = choose|i: int| 0 <= i < p.len() && p[i] == m;
        let to = from - 8;
        if rank_of(from) == 1 {
            lemma_promo_fields(from, to, m);
        } else if p[i] == mv(from, to) {
            lemma_mv_fields(from, to);
        } else {
            lemma_mv_fields(from, from - 16);
        }
    }
}

proof fn lemma_piece_target(v: PosView, pt: PieceType, from: int, m: Move)
    requires
        0 <= from < 64,
        pt != PieceType::Pawn,
        v.board[from] == piece_code(v.side, pt),
        piece_moves(v, pt, from).contains(m),
    ensures
        lands_fairly(v, m),
{
    lemma_target_moves_contains(from, target_pred(v, pt, from), 64, m);
    let t = choose|t: int| 0 <= t < 64 && #[trigger] (target_pred(v, pt, from))(t) && m == mv(from, t);
    assert(piece_target(v, pt, from, t));
    lemma_mv_fields(from, t);
}

proof fn lemma_castle_target(v: PosView, ksq: int, m: Move)
    requires
        gen_ready(v),
        castle_moves(v, ksq).contains(m),
        0 <= ksq < 64,
    ensures
        v.board[mv_to(m)] == 12,
{
    let c = castle_moves(v, ksq);
    let i = choose|i: int| 0 <= i < c.len() && c[i] == m;
    if v.side == Color::White {
        lemma_mv_fields(ksq, 6);
        lemma_mv_fields(ksq, 2);
    } else {
        lemma_mv_fields(ksq, 62);
        lemma_mv_fields(ksq, 58);
    }
}

/// Every generated move lands on an empty square or on one its piece attacks.
pub proof fn lemma_pseudo_lands_fairly(v: PosView, m: Move)
    requires
        gen_ready(v),
        pseudo_moves(v).contains(m),
    ensures
        lands_fairly(v, m),
{
    let us = v.side;
    let b = v.board;
    let ksq = king_square_of(b, us);
    let sp = section(b, piece_code(us, PieceType::Pawn), pawn_fn(v), 64);
    let sn = section(b, piece_code(us, PieceType::Knight), piece_fn(v, PieceType::Knight), 64);
    let sb = section(b, piece_code(us, PieceType::Bishop), piece_fn(v, PieceType::Bishop), 64);
    let sr = section(b, piece_code(us, PieceType::Rook), piece_fn(v, PieceType::Rook), 64);
    let sq = section(b, piece_code(us, PieceType::Queen), piece_fn(v, PieceType::Queen), 64);
    let km = piece_moves(v, PieceType::King, ksq);
    let cm = castle_moves(v, ksq);
    let w = choose|i: int| 0 <= i < 64 && #[trigger] b[i] == piece_code(us, PieceType::King);
    lemma_one_king_square(b, us, w);
    assert(pseudo_moves(v) == sp + sn + sb + sr + sq + km + cm);
    lemma_concat_contains(sp + sn + sb + sr + sq + km, cm, m);
    if cm.contains(m) {
        lemma_castle_target(v, ksq, m);
        return;
    }
    lemma_concat_contains(sp + sn + sb + sr + sq, km, m);
    if km.contains(m) {
        lemma_piece_target(v, PieceType::King, ksq, m);
        return;
    }
    lemma_concat_contains(sp + sn + sb + sr, sq, m);
    if sq.contains(m) {
        lemma_section_contains(b, piece_code(us, PieceType::Queen), piece_fn(v, PieceType::Queen), 64, m);
        let f = choose|f: int| 0 <= f < 64 && b[f] == piece_code(us, PieceType::Queen) && #[trigger] (piece_fn(v, PieceType::Queen))(f).contains(m);
        lemma_piece_target(v, PieceType::Queen, f, m);
        return;
    }
    lemma_concat_contains(sp + sn + sb, sr, m);
    if sr.contains(m) {
        lemma_section_contains(b, piece_code(us, PieceType::Rook), piece_fn(v, PieceType::Rook), 64, m);
        let f = choose|f: int| 0 <= f < 64 && b[f] == piece_code(us, PieceType::Rook) && #[trigger] (piece_fn(v, PieceType::Rook))(f).contains(m);
        lemma_piece_target(v, PieceType::Rook, f, m);
        return;
    }
    lemma_concat_contains(sp + sn, sb, m);
    if sb.contains(m) {
        lemma_section_contains(b, piece_code(us, PieceType::Bishop), piece_fn(v, PieceType::Bishop), 64, m);
        let f = choose|f: int| 0 <= f < 64 && b[f] == piece_code(us, PieceType::Bishop) && #[trigger] (piece_fn(v, PieceType::Bishop))(f).contains(m);
        lemma_piece_target(v, PieceType::Bishop, f, m);
        return;
    }
    lemma_concat_contains(sp, sn, m);
    if sn.contains(m) {
        lemma_section_contains(b, piece_code(us, PieceType::Knight), piece_fn(v, PieceType::Knight), 64, m);
        let f = choose|f: int| 0 <= f < 64 && b[f] == piece_code(us, PieceType::Knight) && #[trigger] (piece_fn(v, PieceType::Knight))(f).contains(m);
        lemma_piece_target(v, PieceType::Knight, f, m);
        return;
    }
    lemma_section_contains(b, piece_code(us, PieceType::Pawn), pawn_fn(v), 64, m);
    let f = choose|f: int| 0 <= f < 64 && b[f] == piece_code(us, PieceType::Pawn) && #[trigger] (pawn_fn(v))(f).contains(m);
    lemma_pawn_target(v, f, m);
}

/// The move generator never captures a king: in a playable position no
/// generated move, legal or not, lands on the opposing king.
pub proof fn lemma_no_king_capture(v: PosView, m: Move)
    requires
        playable(v),
        pseudo_moves(v).contains(m),
    ensures
        v.board[mv_to(m)] != piece_code(spec_opposite(v.side), PieceType::King),
{
    lemma_pseudo_lands_fairly(v, m);
    lemma_pseudo_facts(v, m);
    let to = mv_to(m);
    let them = spec_opposite(v.side);
    if v.board[to] == piece_code(them, PieceType::King) {
        lemma_one_king_square(v.board, them, to);
        assert(attacks_from(v.board, mv_from(m), to, v.side));
        assert(square_attacked(v.board, to, v.side));
    }
}

/// Counts the kings of color `c`: whether there is one, and whether there are two or more.
fn scan_kings(pos: &crate::position::Position, c: Color) -> (r: (bool, bool))
    ensures
        r.0 == has_king(pos.board@, c),
        r.0 && !r.1 <==> one_king(pos.board@, c),
{
    let code = crate::types::make_piece(c, PieceType::King);
    let mut found = false;
    let mut dup = false;
    let mut at: usize = 0;
    let mut sq: usize = 0;
    while sq < 64
        invariant
            sq <= 64,
            pos.board@.len() == 64,
            code == piece_code(c, PieceType::King),
            found <==> exists|i: int| 0 <= i < sq && #[trigger] pos.board@[i] == code,
            found ==> at < sq && pos.board@[at as int] == code,
            !dup ==> forall|i: int| 0 <= i < sq && #[trigger] pos.board@[i] == code ==> i == at,
            dup ==> exists|i: int, j: int|
                0 <= i < j < sq && #[trigger] pos.board@[i] == code && #[trigger] pos.board@[j] == code,
        decreases 64 - sq,
    {
        if pos.board[sq] == code {
            if found {
                assert(pos.board@[at as int] == code && pos.board@[sq as int] == code);
                dup = true;
            } else {
                found = true;
                at = sq;
            }
        }
        sq += 1;
    }
    proof {
        if found && !dup {
            assert forall|i: int, j: int|
                0 <= i < 64 && 0 <= j < 64 && pos.board@[i] == piece_code(c, PieceType::King)
                    && pos.board@[j] == piece_code(c, PieceType::King) implies i == j by {}
        }
        if dup {
            let (i, j) = choose|i: int, j: int|
                0 <= i < j < 64 && #[trigger] pos.board@[i] == code && #[trigger] pos.board@[j] == code;
            assert(!one_king(pos.board@, c));
        }
        if !found {
            assert(!has_king(pos.board@, c));
        }
    }
    (found, dup)
}

impl crate::position::Position {
    /// Board, bitboards, occupancy, hash and castling rights agree.
    pub fn is_consistent(&self) -> (r: bool)
        ensures
            r == self.wf(),
    {
        let mut sq: usize = 0;
        while sq < 64
            invariant
                sq <= 64,
                self.board@.len() == 64,
                forall|i: int| 0 <= i < sq ==> #[trigger] self.board@[i] <= 12,
            decreases 64 - sq,
        {
            if self.board[sq] > 12 {
                return false;
            }
            sq += 1;
        }
        if self.castling > 15 {
            return false;
        }
        let mut p: usize = 0;
        while p < 12
            invariant
                p <= 12,
                self.board@.len() == 64,
                self.bb@.len() == 12,
                forall|q: int, i: u64| 0 <= q < p && i < 64 ==> #[trigger] crate::bits::bit(self.bb@[q], i) == (self.board@[i as int] == q),
            decreases 12 - p,
        {
            let mut i: u64 = 0;
            while i < 64
                invariant
                    i <= 64,
                    p < 12,
                    self.board@.len() == 64,
                    self.bb@.len() == 12,
                    forall|q: int, j: u64| 0 <= q < p && j < 64 ==> #[trigger] crate::bits::bit(self.bb@[q], j) == (self.board@[j as int] == q),
                    forall|j: u64| j < i ==> #[trigger] crate::bits::bit(self.bb@[p as int], j) == (self.board@[j as int] == p),
                decreases 64 - i,
            {
                let b = (self.bb[p] >> i) & 1 == 1;
                if b != (self.board[i as usize] as usize == p) {
                    assert(crate::bits::bit(self.bb@[p as int], i) != (self.board@[i as int] == p));
                    assert(!crate::position::bb_ok(self.board@, self.bb@));
                    return false;
                }
                i += 1;
            }
            p += 1;
        }
        let mut i: u64 = 0;
        while i < 64
            invariant
                i <= 64,
                self.board@.len() == 64,
                self.occupied@.len() == 2,
                forall|j: u64| j < i ==> #[trigger] crate::bits::bit(self.occupied@[0], j) == (self.board@[j as int] < 6),
                forall|j: u64| j < i ==> #[trigger] crate::bits::bit(self.occupied@[1], j) == (6 <= self.board@[j as int] < 12),
                forall|j: u64| j < i ==> #[trigger] crate::bits::bit(self.occupied_all, j) == (self.board@[j as int] < 12),
            decreases 64 - i,
        {
            let p = self.board[i as usize];
            if ((self.occupied[0] >> i) & 1 == 1) != (p < 6) {
                assert(crate::bits::bit(self.occupied@[0], i) != (self.board@[i as int] < 6));
                return false;
            }
            if ((self.occupied[1] >> i) & 1 == 1) != (6 <= p && p < 12) {
                assert(crate::bits::bit(self.occupied@[1], i) != (6 <= self.board@[i as int] < 12));
                assert(!crate::position::occ_ok(self.board@, self.occupied@, self.occupied_all));
                return false;
            }
            if ((self.occupied_all >> i) & 1 == 1) != (p < 12) {
                assert(crate::bits::bit(self.occupied_all, i) != (self.board@[i as int] < 12));
                assert(!crate::position::occ_ok(self.board@, self.occupied@, self.occupied_all));
                return false;
            }
            i += 1;
        }
        self.hash == self.compute_hash()
    }

    /// The en passant square is sane (see `ep_sane`).
    fn ep_is_sane(&self) -> (r: bool)
        requires
            self.wf(),
        ensures
            r == ep_sane(self@),
    {
        let us = self.side_to_move;
        let them = us.opposite();
        let ep = self.en_passant;
        if ep == 64 {
            return true;
        }
        if ep > 64 {
            return false;
        }
        let rank = ep / 8;
        let want: u8 = if us == Color::White {
            5
        } else {
            2
        };
        if self.board[ep as usize] != 12 || rank != want {
            return false;
        }
        let cap = if us == Color::White {
            ep - 8
        } else {
            ep + 8
        };
        self.board[cap as usize] == crate::types::make_piece(them, PieceType::Pawn)
    }

    /// The en passant square is one no generated move misuses (see `ep_ok`).
    fn ep_usable(&self) -> (r: bool)
        requires
            self.wf(),
        ensures
            r == ep_ok(self@),
    {
        if self.ep_is_sane() {
            return true;
        }
        let us = self.side_to_move;
        let pawn: u8 = if us == Color::White {
            0
        } else {
            6
        };
        let t = self.en_passant as i32;
        let mut sq: usize = 0;
        while sq < 64
            invariant
                sq <= 64,
                self.wf(),
                !ep_sane(self@),
                pawn == piece_code(us, PieceType::Pawn),
                us == self.side_to_move,
                t == self.en_passant as int,
                forall|s: int|
                    0 <= s < sq && self.board@[s] == piece_code(us, PieceType::Pawn)
                        ==> !#[trigger] pawn_reach(us, s, t as int),
            decreases 64 - sq,
        {
            if self.board[sq] == pawn {
                let sv = sq as i32;
                let df = t % 8 - sv % 8;
                let diag = (df == 1 || df == -1) && if us == Color::White {
                    t / 8 == sv / 8 + 1
                } else {
                    t / 8 == sv / 8 - 1
                };
                let straight = if us == Color::White {
                    t == sv + 8 || t == sv + 16
                } else {
                    t == sv - 8 || t == sv - 16
                };
                assert((diag || straight) == pawn_reach(us, sq as int, t as int));
                if diag || straight {
                    return false;
                }
            }
            sq += 1;
        }
        true
    }

    /// The position is one the move generator and the search accept: see `playable`.
    pub fn is_playable(&self) -> (r: bool)
        requires
            self.wf(),
        ensures
            r == playable(self@),
    {
        let us = self.side_to_move;
        let them = us.opposite();
        let (_, us_dup) = scan_kings(self, us);
        let (them_found, them_dup) = scan_kings(self, them);
        let (us_found, _) = scan_kings(self, us);
        if !us_found || us_dup || !them_found || them_dup {
            return false;
        }
        if !self.ep_usable() {
            return false;
        }
        if us == Color::Black && self.fullmove == 65535 {
            return false;
        }
        let ksq = self.king_square(them);
        proof {
            crate::movegen::lemma_king_square_of(self.board@, them, ksq as int);
        }
        !crate::movegen::is_square_attacked(self, ksq, us)
    }
}

} // verus!
