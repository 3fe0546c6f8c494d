//! Endgame knowledge in the place of Syzygy tablebases: win/draw/loss for a
//! few piece sets with at most five men, from the side to move's view.
use vstd::prelude::*;
use crate::bits::{bit, popcount, popcount_upto};
use crate::position::Position;
use crate::types::count_bits;

verus! {

/// Where tablebase files would be read from, and whether probing is on.
pub struct SyzygyTablebase {
    pub path: Option<String>,
    pub enabled: bool,
}

impl SyzygyTablebase {
    /// No path, probing off.
    pub fn new() -> (t: Self)
        ensures
            t.path is None,
            !t.enabled,
    {
        SyzygyTablebase { path: None, enabled: false }
    }

    /// An empty path or `<empty>` turns probing off; any other path is kept
    /// and turns it on.
    pub fn set_path(&mut self, path: String)
        ensures
            path@.len() == 0 || path@ == "<empty>"@ ==> final(self).path is None && !(final(self).enabled),
            !(path@.len() == 0 || path@ == "<empty>"@) ==> (final(self).path matches Some(p) && p@
                == path@ && final(self).enabled),
    {
        let empty_name = "<empty>".to_owned();
        if path.as_str().is_empty() || path == empty_name {
            self.path = None;
            self.enabled = false;
        } else {
            self.path = Some(path);
            self.enabled = true;
        }
    }

    pub fn is_enabled(&self) -> (r: bool)
        ensures
            r == self.enabled,
    {
        self.enabled
    }
}

impl Default for SyzygyTablebase {
    fn default() -> (t: Self)
        ensures
            t.path is None,
            !t.enabled,
    {
        Self::new()
    }
}

/// The number of pieces of the given side among squares `0..n` (white: codes
/// below 6; black: the other codes but the empty one).
pub open spec fn side_count(board: Seq<u8>, white: bool, n: nat) -> nat
    decreases n,
{
    if n == 0 {
        0
    } else {
        let p = board[n - 1];
        side_count(board, white, (n - 1) as nat) + if p != 12 && (p < 6) == white {
            1nat
        } else {
            0nat
        }
    }
}

/// The number of pieces of the given side and type index among squares `0..n`.
pub open spec fn kind_count(board: Seq<u8>, white: bool, t: int, n: nat) -> nat
    decreases n,
{
    if n == 0 {
        0
    } else {
        let p = board[n - 1];
        kind_count(board, white, t, (n - 1) as nat) + if p != 12 && (p < 6) == white && p % 6
            == t {
            1nat
        } else {
            0nat
        }
    }
}

/// The endgame verdict for `total` men on `board` with `white_to_move`:
/// 2 win, 1 draw, 0 loss, `None` unknown. Two men: draw. Three men: a lone
/// queen or rook wins for its side; a lone bishop or knight draws. Four men:
/// two bishops against the bare king win for their side.
pub open spec fn spec_probe_wdl(total: nat, board: Seq<u8>, white_to_move: bool) -> Option<i32> {
    let w_len = side_count(board, true, 64);
    let b_len = side_count(board, false, 64);
    let wq = kind_count(board, true, 4, 64);
    let wr = kind_count(board, true, 3, 64);
    let wb = kind_count(board, true, 2, 64);
    let wn = kind_count(board, true, 1, 64);
    let bq = kind_count(board, false, 4, 64);
    let br = kind_count(board, false, 3, 64);
    let bbp = kind_count(board, false, 2, 64);
    let bn = kind_count(board, false, 1, 64);
    if total > 5 {
        None
    } else if total == 2 {
        Some(1)
    } else if total == 3 {
        let w_major = (wq == 1 || wr == 1) && w_len == 2;
        let b_major = (bq == 1 || br == 1) && b_len == 2;
        if white_to_move && w_major {
            Some(2)
        } else if white_to_move && b_major {
            Some(0)
        } else if !white_to_move && b_major {
            Some(2)
        } else if !white_to_move && w_major {
            Some(0)
        } else if (wb == 1 || wn == 1) && w_len == 2 {
            Some(1)
        } else if (bbp == 1 || bn == 1) && b_len == 2 {
            Some(1)
        } else {
            None
        }
    } else if total == 4 {
        if wb == 2 && w_len == 3 {
            if white_to_move {
                Some(2)
            } else {
                Some(0)
            }
        } else if bbp == 2 && b_len == 3 {
            if !white_to_move {
                Some(2)
            } else {
                Some(0)
            }
        } else {
            None
        }
    } else {
        None
    }
}

/// A verdict seen from the other side: a win becomes a loss and a loss a win.
pub open spec fn flip_wdl(r: Option<i32>) -> Option<i32> {
    match r {
        Some(w) => Some((2 - w) as i32),
        None => None,
    }
}

/// The verdict is 0, 1 or 2, and, when the count of men is that of the
/// board's pieces, it is the other side's verdict seen from the other side.
pub proof fn lemma_probe_wdl_sides(total: nat, board: Seq<u8>)
    requires
        total == side_count(board, true, 64) + side_count(board, false, 64),
    ensures
        spec_probe_wdl(total, board, true) == flip_wdl(spec_probe_wdl(total, board, false)),
        forall|white: bool| #[trigger] spec_probe_wdl(total, board, white) matches Some(w) ==> 0 <= w <= 2,
{
}

proof fn lemma_occupied_count(board: Seq<u8>, b: u64, n: nat)
    requires
        n <= 64,
        crate::position::board_codes_ok(board),
        forall|i: u64| i < 64 ==> #[trigger] bit(b, i) == (board[i as int] < 12),
    ensures
        popcount_upto(b, n) == side_count(board, true, n) + side_count(board, false, n),
    decreases n,
{
    if n > 0 {
        lemma_occupied_count(board, b, (n - 1) as nat);
        assert(bit(b, (n - 1) as u64) == (board[n - 1] < 12));
    }
}

/// Squares `wk`, `bk` and `s` hold the white king, the black king and one
/// more piece; every other square is empty.
pub open spec fn three_men(board: Seq<u8>, wk: int, bk: int, s: int) -> bool {
    &&& board.len() == 64
    &&& 0 <= wk < 64 && 0 <= bk < 64 && 0 <= s < 64
    &&& wk != bk && wk != s && bk != s
    &&& board[wk] == 5 && board[bk] == 11 && board[s] < 12
    &&& forall|i: int| 0 <= i < 64 && i != wk && i != bk && i != s ==> board[i] == 12
}

proof fn lemma_three_men_sides(board: Seq<u8>, wk: int, bk: int, s: int, white: bool, n: nat)
    requires
        three_men(board, wk, bk, s),
        n <= 64,
    ensures
        side_count(board, white, n) == (if (white && wk < n) || (!white && bk < n) {
            1nat
        } else {
            0nat
        }) + (if s < n && (board[s] < 6) == white {
            1nat
        } else {
            0nat
        }),
    decreases n,
{
    if n > 0 {
        lemma_three_men_sides(board, wk, bk, s, white, (n - 1) as nat);
    }
}

proof fn lemma_three_men_kinds(board: Seq<u8>, wk: int, bk: int, s: int, white: bool, t: int, n: nat)
    requires
        three_men(board, wk, bk, s),
        1 <= t <= 4,
        n <= 64,
    ensures
        kind_count(board, white, t, n) == if s < n && (board[s] < 6) == white && board[s] % 6
            == t {
            1nat
        } else {
            0nat
        },
    decreases n,
{
    if n > 0 {
        lemma_three_men_kinds(board, wk, bk, s, white, t, (n - 1) as nat);
    }
}

/// King and a single knight or bishop against a bare king cannot be won:
/// the verdict is a draw whichever side is to move.
pub proof fn lemma_minor_piece_endgame_draws(pos: Position, wk: int, bk: int, s: int)
    requires
        pos.wf(),
        three_men(pos.board@, wk, bk, s),
        pos.board@[s] % 6 == 1 || pos.board@[s] % 6 == 2,
    ensures
        popcount(pos.occupied_all) == 3,
        forall|white: bool| #[trigger]
            spec_probe_wdl(popcount(pos.occupied_all), pos.board@, white) == Some(1i32),
{
    let b = pos.board@;
    lemma_occupied_count(b, pos.occupied_all, 64);
    lemma_three_men_sides(b, wk, bk, s, true, 64);
    lemma_three_men_sides(b, wk, bk, s, false, 64);
    lemma_three_men_kinds(b, wk, bk, s, true, 1, 64);
    lemma_three_men_kinds(b, wk, bk, s, true, 2, 64);
    lemma_three_men_kinds(b, wk, bk, s, true, 3, 64);
    lemma_three_men_kinds(b, wk, bk, s, true, 4, 64);
    lemma_three_men_kinds(b, wk, bk, s, false, 1, 64);
    lemma_three_men_kinds(b, wk, bk, s, false, 2, 64);
    lemma_three_men_kinds(b, wk, bk, s, false, 3, 64);
    lemma_three_men_kinds(b, wk, bk, s, false, 4, 64);
}

/// King and a single queen or rook against a bare king is a win for the side
/// with the piece and a loss for the other, whichever is to move.
pub proof fn lemma_major_piece_endgame_wins(pos: Position, wk: int, bk: int, s: int)
    requires
        pos.wf(),
        three_men(pos.board@, wk, bk, s),
        pos.board@[s] % 6 == 3 || pos.board@[s] % 6 == 4,
    ensures
        spec_probe_wdl(popcount(pos.occupied_all), pos.board@, pos.board@[s] < 6) == Some(2i32),
        spec_probe_wdl(popcount(pos.occupied_all), pos.board@, pos.board@[s] >= 6) == Some(0i32),
{
    let b = pos.board@;
    lemma_occupied_count(b, pos.occupied_all, 64);
    lemma_three_men_sides(b, wk, bk, s, true, 64);
    lemma_three_men_sides(b, wk, bk, s, false, 64);
    lemma_three_men_kinds(b, wk, bk, s, true, 1, 64);
    lemma_three_men_kinds(b, wk, bk, s, true, 2, 64);
    lemma_three_men_kinds(b, wk, bk, s, true, 3, 64);
    lemma_three_men_kinds(b, wk, bk, s, true, 4, 64);
    lemma_three_men_kinds(b, wk, bk, s, false, 1, 64);
    lemma_three_men_kinds(b, wk, bk, s, false, 2, 64);
    lemma_three_men_kinds(b, wk, bk, s, false, 3, 64);
    lemma_three_men_kinds(b, wk, bk, s, false, 4, 64);
}

/// With three men a win for the side to move needs its lone piece to be a
/// queen or a rook.
pub proof fn lemma_three_men_win_needs_major(board: Seq<u8>, white: bool)
    ensures
        spec_probe_wdl(3, board, white) == Some(2i32) ==> kind_count(board, white, 4, 64) == 1
            || kind_count(board, white, 3, 64) == 1,
{
}

/// On a consistent position the number of men the probe counts (the bits of
/// the occupancy board) is the number of pieces on the board; the verdict is
/// 0, 1 or 2, flips between win and loss with the side to move, is unknown
/// with more than five men and a draw with two.
pub proof fn lemma_probe_wdl_position(pos: Position)
    requires
        pos.wf(),
    ensures
        popcount(pos.occupied_all) == side_count(pos.board@, true, 64) + side_count(
            pos.board@,
            false,
            64,
        ),
        spec_probe_wdl(popcount(pos.occupied_all), pos.board@, true) == flip_wdl(
            spec_probe_wdl(popcount(pos.occupied_all), pos.board@, false),
        ),
        forall|white: bool| #[trigger]
            spec_probe_wdl(popcount(pos.occupied_all), pos.board@, white) matches Some(w) ==> 0
                <= w <= 2,
        popcount(pos.occupied_all) > 5 ==> forall|white: bool| #[trigger]
            spec_probe_wdl(popcount(pos.occupied_all), pos.board@, white) is None,
        popcount(pos.occupied_all) == 2 ==> forall|white: bool| #[trigger]
            spec_probe_wdl(popcount(pos.occupied_all), pos.board@, white) == Some(1i32),
{
    lemma_occupied_count(pos.board@, pos.occupied_all, 64);
    lemma_probe_wdl_sides(popcount(pos.occupied_all), pos.board@);
}

/// The endgame verdict for `pos`: the number of men is that of its occupancy
/// board, the pieces are read from its board.
pub fn probe_wdl(pos: &Position) -> (r: Option<i32>)
    requires
        pos.board@.len() == 64,
    ensures
        r == spec_probe_wdl(
            popcount(pos.occupied_all),
            pos.board@,
            pos.side_to_move == crate::types::Color::White,
        ),
{
    let total = count_bits(pos.occupied_all);
    if total > 5 {
        return None;
    }
    if total == 2 {
        return Some(1);
    }
    let mut w_len: u32 = 0;
    let mut b_len: u32 = 0;
    let mut wk: [u32; 6] = [0; 6];
    let mut bk: [u32; 6] = [0; 6];
    let mut sq: usize = 0;
    while sq < 64
        invariant
            sq <= 64,
            pos.board@.len() == 64,
            w_len == side_count(pos.board@, true, sq as nat),
            b_len == side_count(pos.board@, false, sq as nat),
            forall|t: int| 0 <= t < 6 ==> #[trigger] wk@[t] == kind_count(pos.board@, true, t, sq as nat),
            forall|t: int| 0 <= t < 6 ==> #[trigger] bk@[t] == kind_count(pos.board@, false, t, sq as nat),
            w_len <= sq,
            b_len <= sq,
            forall|t: int| 0 <= t < 6 ==> #[trigger] wk@[t] <= sq,
            forall|t: int| 0 <= t < 6 ==> #[trigger] bk@[t] <= sq,
        decreases 64 - sq,
    {
        let p = pos.board[sq];
        if p != 12 {
            let t = (p % 6) as usize;
            if p < 6 {
                w_len += 1;
                wk[t] = wk[t] + 1;
            } else {
                b_len += 1;
                bk[t] = bk[t] + 1;
            }
        }
        sq += 1;
    }
    let white = pos.side_to_move == crate::types::Color::White;
    if total == 3 {
        let w_major = (wk[4] == 1 || wk[3] == 1) && w_len == 2;
        let b_major = (bk[4] == 1 || bk[3] == 1) && b_len == 2;
        if white && w_major {
            return Some(2);
        }
        if white && b_major {
            return Some(0);
        }
        if !white && b_major {
            return Some(2);
        }
        if !white && w_major {
            return Some(0);
        }
        if (wk[2] == 1 || wk[1] == 1) && w_len == 2 {
            return Some(1);
        }
        if (bk[2] == 1 || bk[1] == 1) && b_len == 2 {
            return Some(1);
        }
        return None;
    }
    if total == 4 {
        if wk[2] == 2 && w_len == 3 {
            return if white {
                Some(2)
            } else {
                Some(0)
            };
        }
        if bk[2] == 2 && b_len == 3 {
            return if !white {
                Some(2)
            } else {
                Some(0)
            };
        }
        return None;
    }
    None
}

/// A verdict as a search score: a win is the mate score less the ply, a loss its
/// negation, anything else 0.
pub fn wdl_to_score(wdl: i32, ply: i32) -> (r: i32)
    requires
        wdl == 2 ==> i32::MIN <= 30000 - ply <= i32::MAX,
        wdl == 0 ==> i32::MIN <= ply - 30000 <= i32::MAX,
    ensures
        r == if wdl == 2 {
            30000 - ply
        } else if wdl == 0 {
            -30000 + ply
        } else {
            0
        },
{
    if wdl == 2 {
        30000 - ply
    } else if wdl == 0 {
        -30000 + ply
    } else {
        0
    }
}

} // verus!
