//! Reading back what `to_fen` writes gives the position it was written from.
use vstd::prelude::*;
use crate::bits::{bit, lemma_bit_or, lemma_bit_single, lemma_zero_no_bit};
use crate::text::{is_ws, is_word, dec_string, join_spaces, ws_tokens, lemma_split_joined_words, lemma_parse_dec_string, lemma_dec_string_word};
use crate::types::{Color, piece_code, pt_of_idx, spec_pt_from_char, spec_square_name};
use crate::position::{PosView, bb_ok, board_codes_ok};
use crate::fen::{BoardScan, FenParse, scan_step, scan_start, board_scan, fill_empty, letter_color, spec_piece_letter, flush_run, row_scan, row_text, board_text, castling_text, ep_text, spec_to_fen, spec_from_fen, castle_scan, spec_castling_field, spec_ep_field};

verus! {

/// The piece field read from `st` on, character by character.
pub open spec fn scan_from(st: BoardScan, s: Seq<char>) -> BoardScan
    decreases s.len(),
{
    if s.len() == 0 {
        st
    } else {
        scan_step(scan_from(st, s.drop_last()), s.last())
    }
}

proof fn lemma_scan_from_concat(st: BoardScan, a: Seq<char>, b: Seq<char>)
    ensures
        scan_from(st, a + b) == scan_from(scan_from(st, a), b),
    decreases b.len(),
{
    if b.len() == 0 {
        assert(a + b =~= a);
    } else {
        lemma_scan_from_concat(st, a, b.drop_last());
        assert((a + b).drop_last() =~= a + b.drop_last());
        assert((a + b).last() == b.last());
    }
}

proof fn lemma_scan_from_one(st: BoardScan, c: char)
    ensures
        scan_from(st, seq![c]) == scan_step(st, c),
{
    assert(seq![c].drop_last() =~= Seq::<char>::empty());
    assert(scan_from(st, Seq::<char>::empty()) == st);
    assert(seq![c].last() == c);
}

proof fn lemma_board_scan_is_scan_from(t: Seq<char>, n: nat)
    requires
        n <= t.len(),
    ensures
        board_scan(t, n) == scan_from(scan_start(), t.take(n as int)),
    decreases n,
{
    if n == 0 {
        assert(t.take(0) =~= Seq::<char>::empty());
    } else {
        lemma_board_scan_is_scan_from(t, (n - 1) as nat);
        assert(t.take(n as int).drop_last() =~= t.take(n - 1));
        assert(t.take(n as int).last() == t[n - 1]);
    }
}

/// `b` with the first `n` squares of rank `r` taken from `board`.
pub open spec fn row_fill(b: Seq<u8>, board: Seq<u8>, r: int, n: int) -> Seq<u8> {
    Seq::new(64, |i: int| if r * 8 <= i < r * 8 + n { board[i] } else { b[i] })
}

/// `bb2` holds the squares of `bb` and, for each piece, its squares among the
/// first `n` of rank `r` on `board`.
pub open spec fn bits_added(bb2: Seq<u64>, bb: Seq<u64>, board: Seq<u8>, r: int, n: int) -> bool {
    &&& bb2.len() == 12
    &&& forall|p: int, s: u64|
        0 <= p < 12 && s < 64 ==> #[trigger] bit(bb2[p], s) == (bit(bb[p], s) || (r * 8 <= s < r
            * 8 + n && board[s as int] == p))
}

/// What reading the letter of piece code `p` gives.
proof fn lemma_letter_facts(p: u8)
    requires
        p < 12,
    ensures
        spec_piece_letter(p) != '/',
        !(48 <= (spec_piece_letter(p) as u32) <= 57),
        spec_pt_from_char(spec_piece_letter(p)) == Some(pt_of_idx(p as int)),
        piece_code(letter_color(spec_piece_letter(p)), pt_of_idx(p as int)) == p,
        !is_ws(spec_piece_letter(p)),
{
}

/// A run of `e` empty squares written as one digit is read back as `e` empty squares.
proof fn lemma_flush_run(b: Seq<u8>, board: Seq<u8>, bb: Seq<u64>, r: int, m: int, e: nat)
    requires
        b.len() == 64,
        board.len() == 64,
        0 <= r < 8,
        0 <= m,
        m + e <= 8,
        1 <= e,
        forall|j: int| m <= j < m + e ==> board[#[trigger] (r * 8 + j)] == 12,
    ensures
        scan_from(BoardScan::Going { board: row_fill(b, board, r, m as int), bb, rank: r, file: m }, dec_string(e))
            == (BoardScan::Going { board: row_fill(b, board, r, m + e), bb, rank: r, file: m + e }),
{
    let c = (48 + e) as char;
    assert(c as u32 == 48 + e);
    assert(dec_string(e) == seq![c]);
    lemma_scan_from_one(BoardScan::Going { board: row_fill(b, board, r, m as int), bb, rank: r, file: m }, c);
    assert(fill_empty(row_fill(b, board, r, m as int), r * 8 + m, e as int) =~= row_fill(b, board, r, m + e)) by {
        assert forall|i: int| 0 <= i < 64 implies #[trigger] fill_empty(row_fill(b, board, r, m as int), r * 8 + m, e as int)[i]
            == row_fill(b, board, r, m + e)[i] by {
            if r * 8 + m <= i < r * 8 + m + e {
                let j = i - r * 8;
                assert(board[r * 8 + j] == 12);
            }
        }
    }
}

/// Reading the text of the first `n` files of rank `r` into a board whose
/// rank `r` is empty fills those files from `board`, except a pending run of
/// empty squares, and adds their pieces to the bitboards.
proof fn lemma_row_prefix(b: Seq<u8>, bb: Seq<u64>, board: Seq<u8>, r: int, n: nat)
    requires
        board_codes_ok(board),
        b.len() == 64,
        bb.len() == 12,
        0 <= r < 8,
        n <= 8,
        forall|f: int| 0 <= f < 8 ==> b[#[trigger] (r * 8 + f)] == 12,
    ensures
        row_scan(board, r, n).1 <= n,
        forall|j: int| n - row_scan(board, r, n).1 <= j < n ==> board[#[trigger] (r * 8 + j)] == 12,
        scan_from(BoardScan::Going { board: b, bb, rank: r, file: 0 }, row_scan(board, r, n).0) matches BoardScan::Going {
            board: b2,
            bb: bb2,
            rank: r2,
            file: f2,
        } && b2 == row_fill(b, board, r, n - row_scan(board, r, n).1) && r2 == r && f2 == n - row_scan(board, r, n).1
            && bits_added(bb2, bb, board, r, n - row_scan(board, r, n).1),
        forall|i: int| 0 <= i < row_scan(board, r, n).0.len() ==> !is_ws(#[trigger] row_scan(board, r, n).0[i]),
    decreases n,
{
    let st0 = BoardScan::Going { board: b, bb, rank: r, file: 0 };
    if n == 0 {
        assert(row_fill(b, board, r, 0) =~= b);
        assert forall|p: int, s: u64| 0 <= p < 12 && s < 64 implies #[trigger] bit(bb[p], s) == (bit(bb[p], s) || (r * 8 <= s < r * 8 + 0 && board[s as int] == p)) by {}
    } else {
        let m = (n - 1) as nat;
        lemma_row_prefix(b, bb, board, r, m);
        let (txt, e) = row_scan(board, r, m);
        let sq = r * 8 + m;
        let p = board[sq];
        let st1 = scan_from(st0, txt);
        let b1 = row_fill(b, board, r, m - e);
        let bb1 = st1->bb;
        if p == 12 {
            assert(row_scan(board, r, n) == (txt, e + 1));
        } else {
            let ft = flush_run(txt, e);
            let letter = spec_piece_letter(p);
            assert(row_scan(board, r, n) == (ft.push(letter), 0nat));
            assert(p < 12) by {
                assert(board[sq] <= 12);
            }
            lemma_letter_facts(p);
            let st2 = scan_from(st0, ft);
            if e > 0 {
                lemma_scan_from_concat(st0, txt, dec_string(e));
                lemma_flush_run(b, board, bb1, r, m - e, e);
                assert(st2 == (BoardScan::Going { board: row_fill(b, board, r, m as int), bb: bb1, rank: r, file: m as int }));
            } else {
                assert(ft == txt);
                assert(b1 =~= row_fill(b, board, r, m as int));
            }
            assert(ft.push(letter).drop_last() =~= ft);
            assert(scan_from(st0, ft.push(letter)) == scan_step(st2, letter));
            let pt = pt_of_idx(p as int);
            let bb3 = bb1.update(p as int, bb1[p as int] | (1u64 << (sq as u64)));
            assert(scan_step(st2, letter) == (BoardScan::Going {
                board: row_fill(b, board, r, m as int).update(sq, p),
                bb: bb3,
                rank: r,
                file: n as int,
            }));
            assert(row_fill(b, board, r, m as int).update(sq, p) =~= row_fill(b, board, r, n as int));
            assert forall|q: int, s: u64| 0 <= q < 12 && s < 64 implies #[trigger] bit(bb3[q], s) == (bit(bb[q], s) || (r * 8 <= s < r * 8 + n && board[s as int] == q)) by {
                assert(bit(bb1[q], s) == (bit(bb[q], s) || (r * 8 <= s < r * 8 + (m - e) && board[s as int] == q)));
                if q == p {
                    lemma_bit_or(bb1[q], 1u64 << (sq as u64), s);
                    lemma_bit_single(sq as u64, s);
                }
                if r * 8 + (m - e) <= s < r * 8 + m {
                    let j = s - r * 8;
                    assert(board[r * 8 + j] == 12);
                }
            }
            assert forall|i: int| 0 <= i < ft.push(letter).len() implies !is_ws(#[trigger] ft.push(letter)[i]) by {
                if i < txt.len() {
                    assert(ft.push(letter)[i] == txt[i]);
                } else if i < ft.len() {
                    lemma_dec_string_word(e);
                    assert(ft.push(letter)[i] == dec_string(e)[i - txt.len()]);
                }
            }
        }
    }
}

/// `board` from rank `8 - k` up, empty below.
pub open spec fn top_fill(board: Seq<u8>, k: int) -> Seq<u8> {
    Seq::new(64, |i: int| if i >= (8 - k) * 8 { board[i] } else { 12u8 })
}

/// Reading the text of the top `k` ranks fills them from `board` with
/// consistent bitboards, and stands at the start of the next rank (or at the
/// end of the last one).
proof fn lemma_board_prefix(board: Seq<u8>, k: nat)
    requires
        board_codes_ok(board),
        k <= 8,
    ensures
        scan_from(scan_start(), board_text(board, k)) matches BoardScan::Going { board: b, bb, rank, file }
            && b == top_fill(board, k as int) && bb.len() == 12 && bb_ok(b, bb) && rank == (if k < 8 { 7 - k } else { 0 })
            && file == (if k < 8 { 0int } else { 8 }),
        k > 0 ==> board_text(board, k).len() > 0,
        forall|i: int| 0 <= i < board_text(board, k).len() ==> !is_ws(#[trigger] board_text(board, k)[i]),
    decreases k,
{
    if k == 0 {
        assert(board_text(board, 0) =~= Seq::<char>::empty());
        assert(top_fill(board, 0) =~= Seq::new(64, |i: int| 12u8));
        let z = Seq::new(12, |i: int| 0u64);
        assert forall|p: int, i: u64| 0 <= p < 12 && i < 64 implies #[trigger] bit(z[p], i) == (top_fill(board, 0)[i as int] == p) by {
            lemma_zero_no_bit(i);
        }
    } else {
        let j = (k - 1) as nat;
        lemma_board_prefix(board, j);
        let r = 8 - k;
        let prev = board_text(board, j);
        let st = scan_from(scan_start(), prev);
        let b0 = top_fill(board, j as int);
        let bb0 = st->bb;
        assert forall|f: int| 0 <= f < 8 implies b0[#[trigger] (r * 8 + f)] == 12 by {}
        lemma_row_prefix(b0, bb0, board, r, 8);
        let (txt, e) = row_scan(board, r, 8);
        lemma_scan_from_concat(scan_start(), prev, txt);
        let st1 = scan_from(st, txt);
        let bb1 = st1->bb;
        let rt = row_text(board, r);
        if e > 0 {
            lemma_scan_from_concat(scan_start(), prev + txt, dec_string(e));
            assert(prev + txt + dec_string(e) =~= prev + rt);
            lemma_flush_run(b0, board, bb1, r, 8 - e, e);
        } else {
            assert(prev + txt =~= prev + rt);
            assert(row_fill(b0, board, r, 8) =~= row_fill(b0, board, r, 8 - e));
        }
        let st2 = scan_from(scan_start(), prev + rt);
        assert(row_fill(b0, board, r, 8) =~= top_fill(board, k as int));
        assert forall|p: int, s: u64| 0 <= p < 12 && s < 64 implies #[trigger] bit(bb1[p], s) == (top_fill(board, k as int)[s as int] == p) by {
            assert(bit(bb0[p], s) == (b0[s as int] == p));
            if r * 8 + (8 - e) <= s < r * 8 + 8 {
                let jj = s - r * 8;
                assert(board[r * 8 + jj] == 12);
            }
        }
        lemma_dec_string_word(e);
        assert forall|i: int| 0 <= i < rt.len() implies !is_ws(#[trigger] rt[i]) by {
            if i >= txt.len() {
                assert(rt[i] == dec_string(e)[i - txt.len()]);
            } else {
                assert(rt[i] == txt[i]);
            }
        }
        assert(rt.len() > 0) by {
            if e == 0 {
                assert(txt.len() > 0) by {
                    assert(row_scan(board, r, 8) == (txt, e));
                    lemma_row_nonempty(board, r, 8);
                }
            } else {
                assert(dec_string(e).len() > 0);
            }
        }
        if r != 0 {
            let text = prev + rt + seq!['/'];
            assert(board_text(board, k) == text);
            lemma_scan_from_concat(scan_start(), prev + rt, seq!['/']);
            lemma_scan_from_one(st2, '/');
            assert forall|i: int| 0 <= i < text.len() implies !is_ws(#[trigger] text[i]) by {
                if i < prev.len() {
                    assert(text[i] == prev[i]);
                } else if i < prev.len() + rt.len() {
                    assert(text[i] == rt[i - prev.len()]);
                }
            }
        } else {
            let text = prev + rt + Seq::<char>::empty();
            assert(board_text(board, k) == text);
            assert(text =~= prev + rt);
            assert forall|i: int| 0 <= i < text.len() implies !is_ws(#[trigger] text[i]) by {
                if i < prev.len() {
                    assert(text[i] == prev[i]);
                } else {
                    assert(text[i] == rt[i - prev.len()]);
                }
            }
        }
    }
}

/// A rank's text holds a character, or its squares are all a pending run.
proof fn lemma_row_nonempty(board: Seq<u8>, r: int, n: nat)
    requires
        n >= 1,
    ensures
        row_scan(board, r, n).0.len() > 0 || row_scan(board, r, n).1 > 0,
    decreases n,
{
    if n > 1 {
        lemma_row_nonempty(board, r, (n - 1) as nat);
    }
}

/// Reading back the castling field written for rights `c`.
proof fn lemma_castling_roundtrip(c: u8)
    requires
        c <= 15,
    ensures
        spec_castling_field(castling_text(c)) == Ok::<u8, Seq<char>>(c),
        is_word(castling_text(c)),
{
    if c == 0 {
        assert(castling_text(c) == seq!['-']);
    } else {
        let a = if c & 1 != 0 { seq!['K'] } else { Seq::<char>::empty() };
        let q = if c & 2 != 0 { seq!['Q'] } else { Seq::<char>::empty() };
        let k = if c & 4 != 0 { seq!['k'] } else { Seq::<char>::empty() };
        let qq = if c & 8 != 0 { seq!['q'] } else { Seq::<char>::empty() };
        let t = a + q + k + qq;
        assert(castling_text(c) == t);
        assert(c & 1 == 0 || c & 1 == 1) by (bit_vector);
        assert(c & 2 == 0 || c & 2 == 2) by (bit_vector);
        assert(c & 4 == 0 || c & 4 == 4) by (bit_vector);
        assert(c & 8 == 0 || c & 8 == 8) by (bit_vector);
        assert((((0u8 | (c & 1)) | (c & 2)) | (c & 4)) | (c & 8) == c) by (bit_vector)
            requires
                c <= 15,
        ;
        assert(c != 0 ==> (c & 1 != 0 || c & 2 != 0 || c & 4 != 0 || c & 8 != 0)) by (bit_vector)
            requires
                c <= 15,
        ;
        lemma_castle_chunk(Seq::<char>::empty(), a, 0u8, c & 1, 'K');
        lemma_castle_chunk(a, q, (0u8 | (c & 1)), c & 2, 'Q');
        lemma_castle_chunk(a + q, k, (0u8 | (c & 1)) | (c & 2), c & 4, 'k');
        lemma_castle_chunk(a + q + k, qq, ((0u8 | (c & 1)) | (c & 2)) | (c & 4), c & 8, 'q');
        assert(Seq::<char>::empty() + a =~= a);
        assert(t != seq!['-']) by {
            if t == seq!['-'] {
                assert(t[0] == '-');
                assert(t[0] == 'K' || t[0] == 'Q' || t[0] == 'k' || t[0] == 'q');
            }
        }
        assert(t.len() > 0);
        assert forall|i: int| 0 <= i < t.len() implies !is_ws(#[trigger] t[i]) by {
            assert(t[i] == 'K' || t[i] == 'Q' || t[i] == 'k' || t[i] == 'q');
        }
    }
}

/// Appending one optional rights letter to the castling text ORs in its bit.
proof fn lemma_castle_chunk(t: Seq<char>, chunk: Seq<char>, before: u8, bitv: u8, letter: char)
    requires
        castle_scan(t, t.len()) == Ok::<u8, Seq<char>>(before),
        chunk == (if bitv != 0 { seq![letter] } else { Seq::<char>::empty() }),
        (letter == 'K' && (bitv == 0 || bitv == 1)) || (letter == 'Q' && (bitv == 0 || bitv == 2)) || (letter
            == 'k' && (bitv == 0 || bitv == 4)) || (letter == 'q' && (bitv == 0 || bitv == 8)),
    ensures
        castle_scan(t + chunk, (t + chunk).len()) == Ok::<u8, Seq<char>>(before | bitv),
{
    if bitv == 0 {
        assert(t + chunk =~= t);
        assert(before | 0u8 == before) by (bit_vector);
    } else {
        let u = t + chunk;
        assert(u == t.push(letter));
        lemma_castle_scan_prefix(t, letter, t.len());
        assert(u[t.len() as int] == letter);
    }
}

proof fn lemma_castle_scan_prefix(t: Seq<char>, c: char, n: nat)
    requires
        n <= t.len(),
    ensures
        castle_scan(t.push(c), n) == castle_scan(t, n),
    decreases n,
{
    if n > 0 {
        lemma_castle_scan_prefix(t, c, (n - 1) as nat);
        assert(t.push(c)[n - 1] == t[n - 1]);
    }
}

/// Reading back the en passant field written for `ep`.
proof fn lemma_ep_roundtrip(ep: u8)
    requires
        ep <= 64,
    ensures
        spec_ep_field(ep_text(ep)) == Some(ep),
        is_word(ep_text(ep)),
{
    if ep != 64 {
        let t = spec_square_name(ep as int);
        let f = (97 + ep % 8) as char;
        let r = (49 + ep / 8) as char;
        assert(f as u32 == 97 + ep % 8);
        assert(r as u32 == 49 + ep / 8);
        assert(t == seq![f, r]);
        assert(t != seq!['-']) by {
            if t == seq!['-'] {
                assert(t.len() == 1);
            }
        }
        assert(((r as u32 - 49) * 8 + (f as u32 - 97)) == ep);
        assert(!is_ws(f) && !is_ws(r));
    }
}

/// Writing a position as FEN and reading it back gives its board (with
/// bitboards that agree with it), side to move, castling rights, en passant
/// square and both counters.
pub proof fn lemma_fen_roundtrip(v: PosView)
    requires
        board_codes_ok(v.board),
        v.castling <= 15,
        v.en_passant <= 64,
    ensures
        spec_from_fen(spec_to_fen(v)) matches FenParse::Parsed {
            board,
            bb,
            side,
            castling,
            ep,
            halfmove,
            fullmove,
        } && board == v.board && bb_ok(board, bb) && side == v.side && castling == v.castling && ep
            == v.en_passant && halfmove == v.halfmove && fullmove == v.fullmove,
{
    let bt = board_text(v.board, 8);
    let sd = seq![if v.side == Color::White { 'w' } else { 'b' }];
    let ct = castling_text(v.castling);
    let et = ep_text(v.en_passant);
    let ht = dec_string(v.halfmove as nat);
    let ft = dec_string(v.fullmove as nat);
    let parts = seq![bt, sd, ct, et, ht, ft];
    reveal_with_fuel(join_spaces, 7);
    assert(spec_to_fen(v) =~= join_spaces(parts)) by {
        assert(parts.drop_last().drop_last().drop_last().drop_last().drop_last() =~= seq![bt]);
        assert(parts.drop_last().drop_last().drop_last().drop_last() =~= seq![bt, sd]);
        assert(parts.drop_last().drop_last().drop_last() =~= seq![bt, sd, ct]);
        assert(parts.drop_last().drop_last() =~= seq![bt, sd, ct, et]);
        assert(parts.drop_last() =~= seq![bt, sd, ct, et, ht]);
        assert(join_spaces(parts) =~= bt + seq![' '] + sd + seq![' '] + ct + seq![' '] + et + seq![' '] + ht + seq![' '] + ft);
    }
    lemma_board_prefix(v.board, 8);
    lemma_castling_roundtrip(v.castling);
    lemma_ep_roundtrip(v.en_passant);
    lemma_dec_string_word(v.halfmove as nat);
    lemma_dec_string_word(v.fullmove as nat);
    assert(is_word(sd)) by {
        assert(!is_ws(sd[0]));
    }
    assert(is_word(bt));
    assert forall|i: int| 0 <= i < parts.len() implies is_word(#[trigger] parts[i]) by {
        if i == 0 {
            assert(parts[i] == bt);
        } else if i == 1 {
            assert(parts[i] == sd);
        } else if i == 2 {
            assert(parts[i] == ct);
        } else if i == 3 {
            assert(parts[i] == et);
        } else if i == 4 {
            assert(parts[i] == ht);
        } else {
            assert(parts[i] == ft);
        }
    }
    lemma_split_joined_words(parts);
    let toks = ws_tokens(spec_to_fen(v));
    assert(toks == parts);
    lemma_parse_dec_string(v.halfmove as nat, 255);
    lemma_parse_dec_string(v.fullmove as nat, 65535);
    lemma_board_scan_is_scan_from(bt, bt.len());
    assert(bt.take(bt.len() as int) =~= bt);
    assert(top_fill(v.board, 8) =~= v.board);
    assert(toks[1] == sd);
    if v.side == Color::White {
        assert(sd == seq!['w']);
    } else {
        assert(sd != seq!['w']) by {
            assert(sd[0] == 'b');
        }
    }
}

/// A FEN text that was written by `to_fen` is written again, letter for
/// letter, by any position whose fields are those read from it.
pub proof fn lemma_fen_text_canonical(v: PosView, w: PosView)
    requires
        board_codes_ok(v.board),
        v.castling <= 15,
        v.en_passant <= 64,
        spec_from_fen(spec_to_fen(v)) matches FenParse::Parsed {
            board,
            bb,
            side,
            castling,
            ep,
            halfmove,
            fullmove,
        } && w.board == board && w.side == side && w.castling == castling && w.en_passant == ep
            && w.halfmove == halfmove && w.fullmove == fullmove,
    ensures
        spec_to_fen(w) == spec_to_fen(v),
{
    lemma_fen_roundtrip(v);
}

/// A canonical FEN text: one `to_fen` writes, that is a full placement with
/// the longest runs of empty squares, castling letters in `KQkq` order or
/// `-`, an en passant square name or `-`, and both counters in decimal.
pub open spec fn canonical_fen(s: Seq<char>) -> bool {
    exists|v: PosView|
        board_codes_ok(v.board) && v.castling <= 15 && v.en_passant <= 64 && s
            == #[trigger] spec_to_fen(v)
}

/// Reading a canonical FEN text and writing the position back gives the same
/// text, letter for letter.
pub proof fn lemma_canonical_fen_rewritten(s: Seq<char>, w: PosView)
    requires
        canonical_fen(s),
        spec_from_fen(s) matches FenParse::Parsed {
            board,
            bb,
            side,
            castling,
            ep,
            halfmove,
            fullmove,
        } && w.board == board && w.side == side && w.castling == castling && w.en_passant == ep
            && w.halfmove == halfmove && w.fullmove == fullmove,
    ensures
        spec_to_fen(w) == s,
{
    let v = choose|v: PosView|
        board_codes_ok(v.board) && v.castling <= 15 && v.en_passant <= 64 && s
            == #[trigger] spec_to_fen(v);
    lemma_fen_text_canonical(v, w);
}

} // verus!
