//! Forsyth–Edwards Notation: reading a position from text and writing it back.
use vstd::prelude::*;
use crate::bits::{bit, lemma_bit_or, lemma_zero_no_bit};
use crate::text::{push_char, push_chars, push_decimal, chars_of, split_ws, ws_tokens, char_views,
    spec_parse_uint, parse_uint, dec_string};
use crate::types::{Color, PieceType, NO_PIECE, NO_SQUARE, CASTLE_WK, CASTLE_WQ, CASTLE_BK,
    CASTLE_BQ, piece_code, spec_pt_from_char, make_piece, spec_square_name};
use crate::position::{Position, State, spec_hash, bb_ok, occ_ok, board_codes_ok};

verus! {

/// Reading the piece field: the board and bitboards filled so far and where
/// the next square is, or the error met, or a run of empty squares that
/// reaches past the last square (on which the reader indexes out of bounds).
pub ghost enum BoardScan {
    Going { board: Seq<u8>, bb: Seq<u64>, rank: int, file: int },
    Failed { msg: Seq<char> },
    Overflowed,
}

/// `board` with the `e` squares from `start` on emptied.
pub open spec fn fill_empty(board: Seq<u8>, start: int, e: int) -> Seq<u8> {
    Seq::new(board.len(), |i: int| if start <= i < start + e { 12u8 } else { board[i] })
}

pub open spec fn is_ascii_upper(c: char) -> bool {
    65 <= (c as u32) <= 90
}

/// The color a piece letter stands for: upper case is white.
pub open spec fn letter_color(c: char) -> Color {
    if is_ascii_upper(c) {
        Color::White
    } else {
        Color::Black
    }
}

/// One character of the piece field.
pub open spec fn scan_step(st: BoardScan, c: char) -> BoardScan {
    match st {
        BoardScan::Going { board, bb, rank, file } => {
            if c == '/' {
                if file != 8 {
                    BoardScan::Failed { msg: "FEN rank not 8 files"@ }
                } else if rank - 1 < 0 {
                    BoardScan::Failed { msg: "too many ranks"@ }
                } else {
                    BoardScan::Going { board, bb, rank: rank - 1, file: 0 }
                }
            } else if 48 <= (c as u32) <= 57 {
                let e = (c as u32) - 48;
                if e < 1 || e > 8 {
                    BoardScan::Failed { msg: "bad digit"@ }
                } else if rank * 8 + file + e > 64 {
                    BoardScan::Overflowed
                } else {
                    BoardScan::Going {
                        board: fill_empty(board, rank * 8 + file, e),
                        bb,
                        rank,
                        file: file + e,
                    }
                }
            } else {
                match spec_pt_from_char(c) {
                    None => BoardScan::Failed { msg: "bad piece "@.push(c) },
                    Some(pt) => {
                        if file >= 8 || rank < 0 {
                            BoardScan::Failed { msg: "board overflow"@ }
                        } else {
                            let sq = rank * 8 + file;
                            let p = piece_code(letter_color(c), pt);
                            BoardScan::Going {
                                board: board.update(sq, p as u8),
                                bb: bb.update(p, bb[p] | (1u64 << (sq as u64))),
                                rank,
                                file: file + 1,
                            }
                        }
                    },
                }
            }
        },
        _ => st,
    }
}

/// The empty board the piece field is read into, from a8's rank down.
pub open spec fn scan_start() -> BoardScan {
    BoardScan::Going {
        board: Seq::new(64, |i: int| 12u8),
        bb: Seq::new(12, |i: int| 0u64),
        rank: 7,
        file: 0,
    }
}

/// The state after the first `n` characters of the piece field `t`.
pub open spec fn board_scan(t: Seq<char>, n: nat) -> BoardScan
    decreases n,
{
    if n == 0 || n > t.len() {
        scan_start()
    } else {
        scan_step(board_scan(t, (n - 1) as nat), t[n - 1])
    }
}

/// The castling rights written in `t` after its first `n` characters, or the error.
pub open spec fn castle_scan(t: Seq<char>, n: nat) -> Result<u8, Seq<char>>
    decreases n,
{
    if n == 0 || n > t.len() {
        Ok(0u8)
    } else {
        match castle_scan(t, (n - 1) as nat) {
            Err(m) => Err(m),
            Ok(c) => {
                let ch = t[n - 1];
                if ch == 'K' {
                    Ok(c | 1)
                } else if ch == 'Q' {
                    Ok(c | 2)
                } else if ch == 'k' {
                    Ok(c | 4)
                } else if ch == 'q' {
                    Ok(c | 8)
                } else {
                    Err("bad castling "@.push(ch))
                }
            },
        }
    }
}

/// The castling field: `-`, or letters among `KQkq`.
pub open spec fn spec_castling_field(t: Seq<char>) -> Result<u8, Seq<char>> {
    if t == seq!['-'] {
        Ok(0u8)
    } else {
        castle_scan(t, t.len())
    }
}

/// The en passant field: `-`, or a square name.
pub open spec fn spec_ep_field(t: Seq<char>) -> Option<u8> {
    if t == seq!['-'] {
        Some(64u8)
    } else if t.len() == 2 && 97 <= (t[0] as u32) <= 104 && 49 <= (t[1] as u32) <= 56 {
        Some((((t[1] as u32) - 49) * 8 + ((t[0] as u32) - 97)) as u8)
    } else {
        None
    }
}

/// What reading a FEN text gives.
pub ghost enum FenParse {
    Parsed {
        board: Seq<u8>,
        bb: Seq<u64>,
        side: Color,
        castling: u8,
        ep: u8,
        halfmove: u8,
        fullmove: u16,
    },
    Error { msg: Seq<char> },
    Overflow,
}

/// The meaning of a FEN text: its whitespace-separated fields are pieces, side,
/// castling, en passant, then optionally the halfmove clock (default 0) and the
/// move number (default 1). The counters are read first, then the pieces, then
/// the rest; the first error met is the answer.
pub open spec fn spec_from_fen(s: Seq<char>) -> FenParse {
    let toks = ws_tokens(s);
    if toks.len() < 4 {
        FenParse::Error { msg: "FEN too short: "@ + s }
    } else {
        let hm = if toks.len() > 4 {
            spec_parse_uint(toks[4], 255)
        } else {
            Some(0nat)
        };
        let fm = if toks.len() > 5 {
            spec_parse_uint(toks[5], 65535)
        } else {
            Some(1nat)
        };
        if hm is None {
            FenParse::Error { msg: "halfmove"@ }
        } else if fm is None {
            FenParse::Error { msg: "fullmove"@ }
        } else {
            match board_scan(toks[0], toks[0].len()) {
                BoardScan::Overflowed => FenParse::Overflow,
                BoardScan::Failed { msg } => FenParse::Error { msg },
                BoardScan::Going { board, bb, .. } => {
                    if toks[1] != seq!['w'] && toks[1] != seq!['b'] {
                        FenParse::Error { msg: "side"@ }
                    } else {
                        match spec_castling_field(toks[2]) {
                            Err(m) => FenParse::Error { msg: m },
                            Ok(castling) => {
                                match spec_ep_field(toks[3]) {
                                    None => FenParse::Error { msg: "bad ep"@ },
                                    Some(ep) => FenParse::Parsed {
                                        board,
                                        bb,
                                        side: if toks[1] == seq!['w'] {
                                            Color::White
                                        } else {
                                            Color::Black
                                        },
                                        castling,
                                        ep,
                                        halfmove: hm.unwrap() as u8,
                                        fullmove: fm.unwrap() as u16,
                                    },
                                }
                            },
                        }
                    }
                },
            }
        }
    }
}

/// A run of empty squares in the piece field reaches past h8's index: the
/// reader would index the board out of bounds there.
pub open spec fn fen_overflows(s: Seq<char>) -> bool {
    spec_from_fen(s) is Overflow
}

/// Once the piece field has failed or overflowed, it stays so.
proof fn lemma_scan_stuck(t: Seq<char>, a: nat, b: nat)
    requires
        a <= b <= t.len(),
        !(board_scan(t, a) is Going),
    ensures
        board_scan(t, b) == board_scan(t, a),
    decreases b,
{
    if a < b {
        lemma_scan_stuck(t, a, (b - 1) as nat);
    }
}

proof fn lemma_castle_stuck(t: Seq<char>, a: nat, b: nat)
    requires
        a <= b <= t.len(),
        castle_scan(t, a) is Err,
    ensures
        castle_scan(t, b) == castle_scan(t, a),
    decreases b,
{
    if a < b {
        lemma_castle_stuck(t, a, (b - 1) as nat);
    }
}

proof fn lemma_or_bits_le(c: u8)
    requires
        c <= 15,
    ensures
        (c | 1) <= 15,
        (c | 2) <= 15,
        (c | 4) <= 15,
        (c | 8) <= 15,
{
    assert((c | 1) <= 15 && (c | 2) <= 15 && (c | 4) <= 15 && (c | 8) <= 15) by (bit_vector)
        requires
            c <= 15,
    ;
}

/// Reads the piece field into a board and bitboards.
/// `None` when a run of empty squares reaches past the last square.
fn scan_board(t: &Vec<char>) -> (r: Option<Result<([u8; 64], [u64; 12]), String>>)
    ensures
        match board_scan(t@, t@.len()) {
            BoardScan::Going { board, bb, .. } => r matches Some(Ok(v)) && v.0@ == board && v.1@
                == bb,
            BoardScan::Failed { msg } => r matches Some(Err(e)) && e@ == msg,
            BoardScan::Overflowed => r is None,
        },
        r matches Some(Ok(v)) ==> board_codes_ok(v.0@),
{
    let mut board = [12u8; 64];
    let mut bb = [0u64; 12];
    let mut rank: i32 = 7;
    let mut file: i32 = 0;
    let mut i: usize = 0;
    assert(board@ =~= Seq::new(64, |i: int| 12u8));
    assert(bb@ =~= Seq::new(12, |i: int| 0u64));
    while i < t.len()
        invariant
            i <= t.len(),
            board_scan(t@, i as nat) == (BoardScan::Going {
                board: board@,
                bb: bb@,
                rank: rank as int,
                file: file as int,
            }),
            0 <= rank <= 7,
            0 <= file,
            rank * 8 + file <= 64,
            board_codes_ok(board@),
        decreases t.len() - i,
    {
        let c = t[i];
        let u = c as u32;
        let ghost n: nat = (i + 1) as nat;
        assert(t@[n - 1] == c);
        if c == '/' {
            if file != 8 {
                proof {
                    lemma_scan_stuck(t@, n, t@.len());
                }
                return Some(Err("FEN rank not 8 files".to_owned()));
            }
            rank = rank - 1;
            file = 0;
            if rank < 0 {
                proof {
                    lemma_scan_stuck(t@, n, t@.len());
                }
                return Some(Err("too many ranks".to_owned()));
            }
        } else if 48 <= u && u <= 57 {
            let e = (u - 48) as i32;
            if e < 1 || e > 8 {
                proof {
                    lemma_scan_stuck(t@, n, t@.len());
                }
                return Some(Err("bad digit".to_owned()));
            }
            if rank * 8 + file + e > 64 {
                proof {
                    lemma_scan_stuck(t@, n, t@.len());
                }
                return None;
            }
            let start = rank * 8 + file;
            let ghost board0 = board@;
            let mut k: i32 = 0;
            while k < e
                invariant
                    0 <= k <= e,
                    start + e <= 64,
                    0 <= start,
                    board@ == fill_empty(board0, start as int, k as int),
                    board0.len() == 64,
                    board_codes_ok(board0),
                decreases e - k,
            {
                board[(start + k) as usize] = NO_PIECE;
                k += 1;
                assert(board@ =~= fill_empty(board0, start as int, k as int));
            }
            file = file + e;
        } else {
            let color = if 65 <= u && u <= 90 {
                Color::White
            } else {
                Color::Black
            };
            let pt = match PieceType::from_char(c) {
                Some(pt) => pt,
                None => {
                    let mut e = "bad piece ".to_owned();
                    push_char(&mut e, c);
                    proof {
                        lemma_scan_stuck(t@, n, t@.len());
                    }
                    return Some(Err(e));
                },
            };
            if file >= 8 || rank < 0 {
                proof {
                    lemma_scan_stuck(t@, n, t@.len());
                }
                return Some(Err("board overflow".to_owned()));
            }
            let sq = (rank * 8 + file) as usize;
            let piece = make_piece(color, pt);
            board[sq] = piece;
            bb[piece as usize] = bb[piece as usize] | (1u64 << (sq as u64));
            file = file + 1;
        }
        i += 1;
    }
    Some(Ok((board, bb)))
}

/// Reads the castling field.
fn castling_field(t: &Vec<char>) -> (r: Result<u8, String>)
    ensures
        match spec_castling_field(t@) {
            Ok(c) => r == Ok::<u8, String>(c) && c <= 15,
            Err(m) => r matches Err(e) && e@ == m,
        },
{
    if t.len() == 1 && t[0] == '-' {
        assert(t@ =~= seq!['-']);
        return Ok(0);
    }
    assert(t@ != seq!['-']) by {
        if t@ == seq!['-'] {
            assert(t@.len() == 1 && t@[0] == '-');
        }
    }
    let mut castling: u8 = 0;
    let mut i: usize = 0;
    while i < t.len()
        invariant
            i <= t.len(),
            castle_scan(t@, i as nat) == Ok::<u8, Seq<char>>(castling),
            castling <= 15,
            t@ != seq!['-'],
        decreases t.len() - i,
    {
        let c = t[i];
        let ghost n: nat = (i + 1) as nat;
        assert(t@[n - 1] == c);
        proof {
            lemma_or_bits_le(castling);
        }
        if c == 'K' {
            castling = castling | CASTLE_WK;
        } else if c == 'Q' {
            castling = castling | CASTLE_WQ;
        } else if c == 'k' {
            castling = castling | CASTLE_BK;
        } else if c == 'q' {
            castling = castling | CASTLE_BQ;
        } else {
            let mut e = "bad castling ".to_owned();
            push_char(&mut e, c);
            proof {
                lemma_castle_stuck(t@, n, t@.len());
            }
            return Err(e);
        }
        i += 1;
    }
    Ok(castling)
}

/// Reads the en passant field.
fn ep_field(t: &Vec<char>) -> (r: Option<u8>)
    ensures
        r == spec_ep_field(t@),
        r matches Some(ep) ==> ep <= 64,
{
    if t.len() == 1 && t[0] == '-' {
        assert(t@ =~= seq!['-']);
        return Some(NO_SQUARE);
    }
    assert(t@ != seq!['-']) by {
        if t@ == seq!['-'] {
            assert(t@.len() == 1 && t@[0] == '-');
        }
    }
    if t.len() != 2 {
        return None;
    }
    let f = t[0] as u32;
    let rk = t[1] as u32;
    if !(97 <= f && f <= 104) || !(49 <= rk && rk <= 56) {
        return None;
    }
    Some(((rk - 49) * 8 + (f - 97)) as u8)
}

/// The union of the bitboards of color `c` for its first `n` piece types.
pub open spec fn occ_upto(bb: Seq<u64>, c: int, n: nat) -> u64
    decreases n,
{
    if n == 0 {
        0
    } else {
        occ_upto(bb, c, (n - 1) as nat) | bb[c * 6 + n - 1]
    }
}

/// The occupancy boards the bitboards give: white, black, and both.
fn occupancy(bb: &[u64; 12]) -> (r: ([u64; 2], u64))
    ensures
        r.0@ == seq![occ_upto(bb@, 0, 6), occ_upto(bb@, 1, 6)],
        r.1 == occ_upto(bb@, 0, 6) | occ_upto(bb@, 1, 6),
{
    let mut occupied = [0u64; 2];
    let mut c: usize = 0;
    while c < 2
        invariant
            c <= 2,
            occupied@.len() == 2,
            forall|cc: int| 0 <= cc < c ==> #[trigger] occupied@[cc] == occ_upto(bb@, cc, 6),
        decreases 2 - c,
    {
        let mut occ = 0u64;
        let mut pt: usize = 0;
        while pt < 6
            invariant
                pt <= 6,
                c < 2,
                occ == occ_upto(bb@, c as int, pt as nat),
            decreases 6 - pt,
        {
            occ = occ | bb[c * 6 + pt];
            pt += 1;
        }
        occupied[c] = occ;
        c += 1;
    }
    assert(occupied@ =~= seq![occ_upto(bb@, 0, 6), occ_upto(bb@, 1, 6)]);
    let all = occupied[0] | occupied[1];
    (occupied, all)
}

/// With consistent bitboards, the occupancy they give is the board's.
proof fn lemma_occupancy_consistent(board: Seq<u8>, bb: Seq<u64>)
    requires
        board_codes_ok(board),
        bb.len() == 12,
        bb_ok(board, bb),
    ensures
        occ_ok(
            board,
            seq![occ_upto(bb, 0, 6), occ_upto(bb, 1, 6)],
            occ_upto(bb, 0, 6) | occ_upto(bb, 1, 6),
        ),
{
    assert forall|c: int, n: nat, i: u64| 0 <= c < 2 && n <= 6 && i < 64 implies #[trigger] bit(
        occ_upto(bb, c, n),
        i,
    ) == (c * 6 <= board[i as int] < c * 6 + n) by {
        lemma_occ_upto_bits(board, bb, c, n, i);
    }
    let o0 = occ_upto(bb, 0, 6);
    let o1 = occ_upto(bb, 1, 6);
    assert forall|i: u64| i < 64 implies #[trigger] bit(o0 | o1, i) == (board[i as int] < 12) by {
        lemma_bit_or(o0, o1, i);
        assert(bit(o0, i) == (0 <= board[i as int] < 6));
        assert(bit(o1, i) == (6 <= board[i as int] < 12));
    }
    let occ = seq![o0, o1];
    assert(occ[0] == o0);
    assert(occ[1] == o1);
    assert forall|i: u64| i < 64 implies #[trigger] bit(occ[0], i) == (board[i as int] < 6) by {
        assert(bit(o0, i) == (0 <= board[i as int] < 6));
    }
    assert forall|i: u64| i < 64 implies #[trigger] bit(occ[1], i) == (6 <= board[i as int] < 12) by {
        assert(bit(o1, i) == (6 <= board[i as int] < 12));
    }
}

proof fn lemma_occ_upto_bits(board: Seq<u8>, bb: Seq<u64>, c: int, n: nat, i: u64)
    requires
        board_codes_ok(board),
        bb.len() == 12,
        bb_ok(board, bb),
        0 <= c < 2,
        n <= 6,
        i < 64,
    ensures
        bit(occ_upto(bb, c, n), i) == (c * 6 <= board[i as int] < c * 6 + n),
    decreases n,
{
    if n == 0 {
        lemma_zero_no_bit(i);
    } else {
        lemma_occ_upto_bits(board, bb, c, (n - 1) as nat, i);
        lemma_bit_or(occ_upto(bb, c, (n - 1) as nat), bb[c * 6 + n - 1], i);
        assert(bit(bb[c * 6 + n - 1], i) == (board[i as int] == c * 6 + n - 1));
    }
}

/// What `Position::from_fen` returns for the text `s`, when it returns.
pub open spec fn fen_result(s: Seq<char>, r: Result<Position, String>) -> bool {
    match spec_from_fen(s) {
        FenParse::Parsed { board, bb, side, castling, ep, halfmove, fullmove } => {
            &&& r matches Ok(pos)
            &&& pos.board@ == board
            &&& pos.bb@ == bb
            &&& pos.side_to_move == side
            &&& pos.castling == castling
            &&& pos.en_passant == ep
            &&& pos.halfmove == halfmove
            &&& pos.fullmove == fullmove
            &&& pos.occupied@ == seq![occ_upto(bb, 0, 6), occ_upto(bb, 1, 6)]
            &&& pos.occupied_all == occ_upto(bb, 0, 6) | occ_upto(bb, 1, 6)
            &&& pos.hash == spec_hash(board, side, castling, ep)
            &&& pos.history@ == Seq::<State>::empty()
            &&& pos.hash_history@ == seq![pos.hash]
            &&& board_codes_ok(board)
            &&& castling <= 15
            &&& ep <= 64
            &&& (bb_ok(board, bb) ==> pos.wf())
        },
        FenParse::Error { msg } => r matches Err(e) && e@ == msg,
        FenParse::Overflow => false,
    }
}

impl Position {
    /// Reads a position from FEN text, or `None` for a text on which
    /// `from_fen` would index past the board (a run of empty squares that
    /// reaches beyond h8's index); see `from_fen` for the rest.
    pub fn read_fen(fen: &str) -> (r: Option<Result<Position, String>>)
        ensures
            r is None <==> fen_overflows(fen@),
            r matches Some(res) ==> fen_result(fen@, res),
    {
        let cs = chars_of(fen);
        let parts = split_ws(&cs);
        let ghost toks = ws_tokens(fen@);
        assert(parts@.len() == toks.len());
        if parts.len() < 4 {
            let mut e = "FEN too short: ".to_owned();
            push_chars(&mut e, &cs);
            return Some(Err(e));
        }
        assert(forall|i: int| 0 <= i < parts@.len() ==> #[trigger] parts@[i]@ == toks[i]) by {
            assert forall|i: int| 0 <= i < parts@.len() implies #[trigger] parts@[i]@ == toks[i] by {
                assert(char_views(parts@)[i] == parts@[i]@);
            }
        }
        let halfmove: u8 = if parts.len() > 4 {
            match parse_uint(&parts[4], 255) {
                Some(v) => v as u8,
                None => {
                    return Some(Err("halfmove".to_owned()));
                },
            }
        } else {
            0
        };
        let fullmove: u16 = if parts.len() > 5 {
            match parse_uint(&parts[5], 65535) {
                Some(v) => v as u16,
                None => {
                    return Some(Err("fullmove".to_owned()));
                },
            }
        } else {
            1
        };
        let (board, bb) = match scan_board(&parts[0]) {
            Some(Ok(v)) => v,
            Some(Err(e)) => {
                return Some(Err(e));
            },
            None => {
                return None;
            },
        };
        let side = &parts[1];
        let side_to_move = if side.len() == 1 && side[0] == 'w' {
            assert(side@ =~= seq!['w']);
            Color::White
        } else if side.len() == 1 && side[0] == 'b' {
            assert(side@ =~= seq!['b']);
            assert(side@ != seq!['w']) by {
                assert(seq!['w'][0] == 'w');
            }
            Color::Black
        } else {
            assert(side@ != seq!['w'] && side@ != seq!['b']) by {
                if side@ == seq!['w'] {
                    assert(seq!['w'].len() == 1 && seq!['w'][0] == 'w');
                }
                if side@ == seq!['b'] {
                    assert(seq!['b'].len() == 1 && seq!['b'][0] == 'b');
                }
            }
            return Some(Err("side".to_owned()));
        };
        let castling = match castling_field(&parts[2]) {
            Ok(c) => c,
            Err(e) => {
                return Some(Err(e));
            },
        };
        let en_passant = match ep_field(&parts[3]) {
            Some(ep) => ep,
            None => {
                return Some(Err("bad ep".to_owned()));
            },
        };
        let (occupied, occupied_all) = occupancy(&bb);
        let mut pos = Position {
            board,
            bb,
            occupied,
            occupied_all,
            side_to_move,
            castling,
            en_passant,
            halfmove,
            fullmove,
            hash: 0,
            history: Vec::with_capacity(256),
            hash_history: Vec::with_capacity(256),
        };
        let hash = pos.compute_hash();
        pos.hash = hash;
        pos.hash_history.push(hash);
        proof {
            if bb_ok(board@, bb@) {
                lemma_occupancy_consistent(board@, bb@);
            }
        }
        Some(Ok(pos))
    }

    /// Reads a position from FEN text. On success the board, bitboards and
    /// fields are those the text gives, the occupancy is the union of the
    /// bitboards, the hash is the position's Zobrist hash, the undo history is
    /// empty and the repetition history holds the hash; the position is
    /// consistent whenever its bitboards agree with its board (they always do
    /// unless a run of empty squares at the end of the piece field spills into
    /// the rank above). Otherwise the error says what was wrong.
    pub fn from_fen(fen: &str) -> (r: Result<Position, String>)
        requires
            !fen_overflows(fen@),
        ensures
            fen_result(fen@, r),
    {
        match Self::read_fen(fen) {
            Some(r) => r,
            None => Err(String::new()),
        }
    }
}

/// The FEN letter of a piece code: upper case for white, lower case for black.
pub open spec fn spec_piece_letter(p: u8) -> char {
    let m = p % 6;
    if p >= 6 {
        if m == 0 { 'p' } else if m == 1 { 'n' } else if m == 2 { 'b' } else if m == 3 { 'r' }
        else if m == 4 { 'q' } else { 'k' }
    } else {
        if m == 0 { 'P' } else if m == 1 { 'N' } else if m == 2 { 'B' } else if m == 3 { 'R' }
        else if m == 4 { 'Q' } else { 'K' }
    }
}

pub(crate) fn piece_letter(p: u8) -> (c: char)
    ensures
        c == spec_piece_letter(p),
{
    let lower = crate::types::piece_type(p).to_char();
    if crate::types::piece_color(p) == Color::White {
        ((lower as u32 - 32) as u8) as char
    } else {
        lower
    }
}

/// `s` followed by the count of a pending run of empty squares, if any.
pub open spec fn flush_run(s: Seq<char>, e: nat) -> Seq<char> {
    if e > 0 {
        s + dec_string(e)
    } else {
        s
    }
}

/// The text of rank `r` after its first `n` files, and the run of empty squares pending.
pub open spec fn row_scan(board: Seq<u8>, r: int, n: nat) -> (Seq<char>, nat)
    decreases n,
{
    if n == 0 {
        (Seq::empty(), 0)
    } else {
        let prev = row_scan(board, r, (n - 1) as nat);
        let p = board[r * 8 + n - 1];
        if p == 12 {
            (prev.0, prev.1 + 1)
        } else {
            (flush_run(prev.0, prev.1).push(spec_piece_letter(p)), 0)
        }
    }
}

/// The FEN text of rank `r`.
pub open spec fn row_text(board: Seq<u8>, r: int) -> Seq<char> {
    let st = row_scan(board, r, 8);
    flush_run(st.0, st.1)
}

/// The piece field for the top `k` ranks, from rank 8 down, `/` after each but the first rank.
pub open spec fn board_text(board: Seq<u8>, k: nat) -> Seq<char>
    decreases k,
{
    if k == 0 {
        Seq::empty()
    } else {
        let r = 8 - k;
        board_text(board, (k - 1) as nat) + row_text(board, r) + if r != 0 {
            seq!['/']
        } else {
            Seq::empty()
        }
    }
}

/// The castling field: `-`, or the letters of the rights held, in the order `KQkq`.
pub open spec fn castling_text(c: u8) -> Seq<char> {
    if c == 0 {
        seq!['-']
    } else {
        (if c & 1 != 0 { seq!['K'] } else { Seq::empty() }) + (if c & 2 != 0 {
            seq!['Q']
        } else {
            Seq::empty()
        }) + (if c & 4 != 0 { seq!['k'] } else { Seq::empty() }) + (if c & 8 != 0 {
            seq!['q']
        } else {
            Seq::empty()
        })
    }
}

/// The en passant field: `-`, or the square's name.
pub open spec fn ep_text(ep: u8) -> Seq<char> {
    if ep == 64 {
        seq!['-']
    } else {
        spec_square_name(ep as int)
    }
}

/// The FEN text of a position.
pub open spec fn spec_to_fen(v: crate::position::PosView) -> Seq<char> {
    board_text(v.board, 8) + seq![' ', if v.side == Color::White { 'w' } else { 'b' }, ' ']
        + castling_text(v.castling) + seq![' '] + ep_text(v.en_passant) + seq![' '] + dec_string(
        v.halfmove as nat,
    ) + seq![' '] + dec_string(v.fullmove as nat)
}

/// Appends the FEN text of rank `rank`.
fn push_row(fen: &mut String, board: &[u8; 64], rank: u8)
    requires
        rank < 8,
    ensures
        final(fen)@ == old(fen)@ + row_text(board@, rank as int),
{
    let mut empty: u32 = 0;
    let mut file: u8 = 0;
    while file < 8
        invariant
            file <= 8,
            rank < 8,
            fen@ == old(fen)@ + row_scan(board@, rank as int, file as nat).0,
            empty == row_scan(board@, rank as int, file as nat).1,
            empty <= file,
        decreases 8 - file,
    {
        let p = board[(rank * 8 + file) as usize];
        if p == NO_PIECE {
            empty += 1;
        } else {
            if empty > 0 {
                push_decimal(fen, empty);
            }
            push_char(fen, piece_letter(p));
            empty = 0;
        }
        file += 1;
        assert(fen@ =~= old(fen)@ + row_scan(board@, rank as int, file as nat).0);
    }
    if empty > 0 {
        push_decimal(fen, empty);
    }
    assert(fen@ =~= old(fen)@ + row_text(board@, rank as int));
}

/// Appends the castling field.
fn push_castling(fen: &mut String, c: u8)
    ensures
        final(fen)@ == old(fen)@ + castling_text(c),
{
    if c == 0 {
        push_char(fen, '-');
    } else {
        if c & CASTLE_WK != 0 {
            push_char(fen, 'K');
        }
        if c & CASTLE_WQ != 0 {
            push_char(fen, 'Q');
        }
        if c & CASTLE_BK != 0 {
            push_char(fen, 'k');
        }
        if c & CASTLE_BQ != 0 {
            push_char(fen, 'q');
        }
    }
    assert(fen@ =~= old(fen)@ + castling_text(c));
}

/// Appends the en passant field.
fn push_ep(fen: &mut String, ep: u8)
    ensures
        final(fen)@ == old(fen)@ + ep_text(ep),
{
    if ep == NO_SQUARE {
        push_char(fen, '-');
        assert(fen@ =~= old(fen)@ + ep_text(ep));
    } else {
        let name = crate::types::square_name(ep);
        let name_chars = chars_of(name.as_str());
        push_chars(fen, &name_chars);
    }
}

impl Position {
    /// The position as FEN text.
    pub fn to_fen(&self) -> (s: String)
        ensures
            s@ == spec_to_fen(self@),
    {
        let mut fen = String::new();
        let mut k: usize = 0;
        while k < 8
            invariant
                k <= 8,
                fen@ == board_text(self.board@, k as nat),
            decreases 8 - k,
        {
            let rank = (7 - k) as u8;
            push_row(&mut fen, &self.board, rank);
            if rank != 0 {
                push_char(&mut fen, '/');
            }
            k += 1;
            assert(fen@ =~= board_text(self.board@, k as nat));
        }
        let ghost b = fen@;
        push_char(&mut fen, ' ');
        push_char(
            &mut fen,
            if self.side_to_move == Color::White {
                'w'
            } else {
                'b'
            },
        );
        push_char(&mut fen, ' ');
        let ghost g1 = fen@;
        assert(g1 =~= b + seq![' ', if self.side_to_move == Color::White { 'w' } else { 'b' }, ' ']);
        push_castling(&mut fen, self.castling);
        push_char(&mut fen, ' ');
        let ghost g2 = fen@;
        assert(g2 =~= g1 + castling_text(self.castling) + seq![' ']);
        push_ep(&mut fen, self.en_passant);
        push_char(&mut fen, ' ');
        let ghost g3 = fen@;
        assert(g3 =~= g2 + ep_text(self.en_passant) + seq![' ']);
        push_decimal(&mut fen, self.halfmove as u32);
        push_char(&mut fen, ' ');
        let ghost g4 = fen@;
        assert(g4 =~= g3 + dec_string(self.halfmove as nat) + seq![' ']);
        push_decimal(&mut fen, self.fullmove as u32);
        assert(fen@ =~= spec_to_fen(self@));
        fen
    }
}

} // verus!
