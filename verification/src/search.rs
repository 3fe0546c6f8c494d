//! Search: iterative deepening over a principal-variation alpha-beta search
//! with quiescence, transposition table, killers and history, under node and
//! time limits.
use vstd::prelude::*;
use crate::text::{chars_of, parse_uint, spec_parse_uint, push_char, push_decimal, dec_string};
use crate::types::{Color, PieceType, Move, MoveList, NO_PIECE, move_from, move_to, move_promo,
    make_piece, piece_type, lemma_move_bounds, pt_of_idx, piece_code};
use crate::position::{Position, PosView};
use crate::history::{HistoryTable, KillerTable};
use crate::tt::{TranspositionTable, TT_EXACT, TT_LOWER, TT_UPPER, retrieve_adjust, store_adjust};
use crate::movegen::{generate_legal, generate_captures, is_square_attacked, legal_moves,
    legal_pred, pseudo_moves, capture_pred, square_attacked, king_square_of, lemma_king_square_of};
use crate::playable::{playable, gen_ready, lemma_pseudo_facts, lemma_facts_reversible,
    lemma_legal_move_keeps_playable};
use crate::perft::lemma_legal_playable_move;
use crate::eval::evaluate;
use std::time::{Duration, Instant};
use std::collections::HashSet;

verus! {

/// The score of a mate on the board.
pub const MATE: i32 = 30000;

/// A score beyond every real one.
pub const INF: i32 = 31000;

/// The deepest ply the search reaches.
pub const MAX_PLY: usize = 64;

/// What a `go` command asks for.
#[derive(Clone, Copy, Debug)]
pub struct SearchLimits {
    pub depth: Option<u32>,
    pub movetime: Option<u64>,
    pub wtime: Option<u64>,
    pub btime: Option<u64>,
    pub winc: Option<u64>,
    pub binc: Option<u64>,
    pub movestogo: Option<u32>,
    pub nodes: Option<u64>,
    pub infinite: bool,
}

/// No limit given.
pub open spec fn no_limits() -> SearchLimits {
    SearchLimits {
        depth: None,
        movetime: None,
        wtime: None,
        btime: None,
        winc: None,
        binc: None,
        movestogo: None,
        nodes: None,
        infinite: false,
    }
}

impl Default for SearchLimits {
    fn default() -> (l: Self)
        ensures
            l == no_limits(),
    {
        SearchLimits {
            depth: None,
            movetime: None,
            wtime: None,
            btime: None,
            winc: None,
            binc: None,
            movestogo: None,
            nodes: None,
            infinite: false,
        }
    }
}

/// A `go` value read as a `u64` (`None` when it does not parse).
pub open spec fn go_u64(t: Seq<char>) -> Option<u64> {
    match spec_parse_uint(t, 0xffff_ffff_ffff_ffff) {
        Some(v) => Some(v as u64),
        None => None,
    }
}

/// A `go` value read as a `u32` (`None` when it does not parse).
pub open spec fn go_u32(t: Seq<char>) -> Option<u32> {
    match spec_parse_uint(t, 0xffff_ffff) {
        Some(v) => Some(v as u32),
        None => None,
    }
}

/// The limits after reading the `go` parameters from index `i` on: a known
/// key followed by a value sets that limit to the value read (or to none when
/// it does not parse) and skips the value; `infinite` sets the flag; other
/// words, and a key with nothing after it, are passed over.
pub open spec fn go_scan(params: Seq<Seq<char>>, i: int, l: SearchLimits) -> SearchLimits
    decreases params.len() - i,
{
    if i < 0 || i >= params.len() {
        l
    } else {
        let w = params[i];
        let next = i + 1 < params.len();
        if next && w == "depth"@ {
            go_scan(params, i + 2, SearchLimits { depth: go_u32(params[i + 1]), ..l })
        } else if next && w == "movetime"@ {
            go_scan(params, i + 2, SearchLimits { movetime: go_u64(params[i + 1]), ..l })
        } else if next && w == "wtime"@ {
            go_scan(params, i + 2, SearchLimits { wtime: go_u64(params[i + 1]), ..l })
        } else if next && w == "btime"@ {
            go_scan(params, i + 2, SearchLimits { btime: go_u64(params[i + 1]), ..l })
        } else if next && w == "winc"@ {
            go_scan(params, i + 2, SearchLimits { winc: go_u64(params[i + 1]), ..l })
        } else if next && w == "binc"@ {
            go_scan(params, i + 2, SearchLimits { binc: go_u64(params[i + 1]), ..l })
        } else if next && w == "movestogo"@ {
            go_scan(params, i + 2, SearchLimits { movestogo: go_u32(params[i + 1]), ..l })
        } else if next && w == "nodes"@ {
            go_scan(params, i + 2, SearchLimits { nodes: go_u64(params[i + 1]), ..l })
        } else if w == "infinite"@ {
            go_scan(params, i + 1, SearchLimits { infinite: true, ..l })
        } else {
            go_scan(params, i + 1, l)
        }
    }
}

/// The character sequences of a slice of strings.
pub open spec fn string_views(params: Seq<String>) -> Seq<Seq<char>> {
    params.map_values(|s: String| s@)
}

fn word_is(w: &String, lit: &str) -> (r: bool)
    ensures
        r == (w@ == lit@),
{
    let l = lit.to_owned();
    *w == l
}

fn read_u64(t: &String) -> (r: Option<u64>)
    ensures
        r == go_u64(t@),
{
    let cs = chars_of(t.as_str());
    parse_uint(&cs, 0xffff_ffff_ffff_ffff)
}

fn read_u32(t: &String) -> (r: Option<u32>)
    ensures
        r == go_u32(t@),
{
    let cs = chars_of(t.as_str());
    match parse_uint(&cs, 0xffff_ffff) {
        Some(v) => Some(v as u32),
        None => None,
    }
}

impl SearchLimits {
    /// Reads the parameters of a `go` command.
    pub fn from_go_params(params: &[String]) -> (l: Self)
        ensures
            l == go_scan(string_views(params@), 0, no_limits()),
    {
        let ghost ps = string_views(params@);
        let mut limits = SearchLimits::default();
        let mut i: usize = 0;
        while i < params.len()
            invariant
                i <= params@.len(),
                ps == string_views(params@),
                ps.len() == params@.len(),
                go_scan(ps, i as int, limits) == go_scan(ps, 0, no_limits()),
            decreases params@.len() - i,
        {
            let next = i + 1 < params.len();
            assert(ps[i as int] == params@[i as int]@);
            if next {
                assert(ps[i + 1] == params@[i + 1]@);
            }
            if next && word_is(&params[i], "depth") {
                limits.depth = read_u32(&params[i + 1]);
                i += 1;
            } else if next && word_is(&params[i], "movetime") {
                limits.movetime = read_u64(&params[i + 1]);
                i += 1;
            } else if next && word_is(&params[i], "wtime") {
                limits.wtime = read_u64(&params[i + 1]);
                i += 1;
            } else if next && word_is(&params[i], "btime") {
                limits.btime = read_u64(&params[i + 1]);
                i += 1;
            } else if next && word_is(&params[i], "winc") {
                limits.winc = read_u64(&params[i + 1]);
                i += 1;
            } else if next && word_is(&params[i], "binc") {
                limits.binc = read_u64(&params[i + 1]);
                i += 1;
            } else if next && word_is(&params[i], "movestogo") {
                limits.movestogo = read_u32(&params[i + 1]);
                i += 1;
            } else if next && word_is(&params[i], "nodes") {
                limits.nodes = read_u64(&params[i + 1]);
                i += 1;
            } else if word_is(&params[i], "infinite") {
                limits.infinite = true;
            }
            i += 1;
        }
        limits
    }
}

/// `std::time::Instant`, carried through the search opaquely.
#[verifier::external_type_specification]
#[verifier::external_body]
pub struct ExInstant(Instant);

/// Calls `Instant::now`: the current time. Nothing is claimed of it.
#[verifier::external_body]
fn instant_now() -> Instant {
    Instant::now()
}

/// Calls `Instant::elapsed`: the time since `start`. Nothing is claimed of it.
#[verifier::external_body]
fn instant_elapsed(start: &Instant) -> Duration {
    start.elapsed()
}

/// Calls `Duration::as_millis`: whole milliseconds, cut to 64 bits. Nothing
/// is claimed of the value.
#[verifier::external_body]
fn duration_millis(d: &Duration) -> u64 {
    d.as_millis() as u64
}

/// Milliseconds since `start`.
fn elapsed_ms(start: &Instant) -> u64 {
    let d = instant_elapsed(start);
    duration_millis(&d)
}

/// The time budget needs no division by zero and no overflow: the moves to go,
/// when given, are not 0, and the clock plus three quarters of the increment fit.
pub open spec fn time_budget_ok(l: SearchLimits, white: bool) -> bool {
    let my_time = if white { l.wtime } else { l.btime };
    let my_inc = if white { l.winc } else { l.binc };
    let inc: int = match my_inc {
        Some(v) => v as int,
        None => 0,
    };
    let mtg: int = match l.movestogo {
        Some(v) => v as int,
        None => 30,
    };
    l.movetime is None && (l.wtime is Some || l.btime is Some) && my_time is Some ==> {
        &&& mtg != 0
        &&& inc * 3 <= u64::MAX
        &&& (my_time.unwrap() as int) / mtg + inc * 3 / 4 <= u64::MAX
    }
}

/// `a - b`, or 0 when `b` is larger.
pub open spec fn sat_sub(a: int, b: int) -> int {
    if a >= b {
        a - b
    } else {
        0
    }
}

/// The soft and hard time limits in milliseconds: a fixed move time is both;
/// otherwise, with a clock for the side, the soft limit is the clock shared
/// over the moves to go (30 by default) plus three quarters of the increment,
/// at most a third of the clock and the clock less 50; the hard limit is one
/// and a half times that, at most the clock less 50; both are raised to 10
/// when the clock holds more than 10. Without a clock there is no limit.
pub open spec fn spec_time_budget(l: SearchLimits, white: bool) -> (Option<u64>, Option<u64>) {
    match l.movetime {
        Some(mt) => (Some(mt), Some(mt)),
        None => {
            let my_time = if white { l.wtime } else { l.btime };
            let my_inc = if white { l.winc } else { l.binc };
            if (l.wtime is Some || l.btime is Some) && my_time is Some {
                let time = my_time.unwrap() as int;
                let inc: int = match my_inc {
                    Some(v) => v as int,
                    None => 0,
                };
                let mtg: int = match l.movestogo {
                    Some(v) => v as int,
                    None => 30,
                };
                let s0 = time / mtg + inc * 3 / 4;
                let s1 = if s0 > time / 3 { time / 3 } else { s0 };
                let s2 = if s1 > sat_sub(time, 50) { sat_sub(time, 50) } else { s1 };
                let h0 = s2 * 3 / 2;
                let h1 = if h0 > sat_sub(time, 50) { sat_sub(time, 50) } else { h0 };
                let s3 = if s2 < 10 && time > 10 { 10 } else { s2 };
                let h2 = if h1 < 10 && time > 10 { 10 } else { h1 };
                (Some(s3 as u64), Some(h2 as u64))
            } else {
                (None, None)
            }
        },
    }
}

/// With a clock for the side to move and no move time, the clock is shared
/// over the moves to go (`movestogo`, or 30 when not given), plus three
/// quarters of the increment: when that share lies between 10 ms and both a
/// third of the clock and the clock less 50 ms, it is the soft limit, and the
/// hard limit is half as much again, at most the clock less 50 ms.
pub proof fn lemma_time_budget_shares_clock(l: SearchLimits, white: bool, t: int, m: int, inc: int)
    requires
        l.movetime is None,
        (if white { l.wtime } else { l.btime }) matches Some(c) && c as int == t,
        m == match l.movestogo {
            Some(v) => v as int,
            None => 30,
        },
        m > 0,
        inc == match (if white { l.winc } else { l.binc }) {
            Some(v) => v as int,
            None => 0,
        },
        10 <= t / m + inc * 3 / 4,
        t / m + inc * 3 / 4 <= t / 3,
        t / m + inc * 3 / 4 + 50 <= t,
    ensures
        spec_time_budget(l, white).0 == Some((t / m + inc * 3 / 4) as u64),
        spec_time_budget(l, white).1 == Some(
            (if (t / m + inc * 3 / 4) * 3 / 2 > t - 50 {
                t - 50
            } else {
                (t / m + inc * 3 / 4) * 3 / 2
            }) as u64,
        ),
{
}

impl SearchLimits {
    /// Whether `time_budget` can be computed for the side (see `time_budget_ok`).
    pub fn time_budget_computable(&self, white: bool) -> (r: bool)
        ensures
            r == time_budget_ok(*self, white),
    {
        if self.movetime.is_some() || !(self.wtime.is_some() || self.btime.is_some()) {
            return true;
        }
        let my_time = if white {
            self.wtime
        } else {
            self.btime
        };
        let my_inc = if white {
            self.winc
        } else {
            self.binc
        };
        match my_time {
            None => true,
            Some(time) => {
                let inc = match my_inc {
                    Some(v) => v,
                    None => 0,
                };
                let mtg: u64 = match self.movestogo {
                    Some(v) => v as u64,
                    None => 30,
                };
                if mtg == 0 || inc > u64::MAX / 3 {
                    return false;
                }
                time / mtg <= u64::MAX - inc * 3 / 4
            },
        }
    }

    /// The soft and hard time limits, in milliseconds, for the side to move.
    pub fn time_budget(&self, white: bool) -> (r: (Option<u64>, Option<u64>))
        requires
            time_budget_ok(*self, white),
        ensures
            r == spec_time_budget(*self, white),
    {
        if let Some(mt) = self.movetime {
            return (Some(mt), Some(mt));
        }
        if !(self.wtime.is_some() || self.btime.is_some()) {
            return (None, None);
        }
        let my_time = if white {
            self.wtime
        } else {
            self.btime
        };
        let my_inc = if white {
            self.winc
        } else {
            self.binc
        };
        match my_time {
            None => (None, None),
            Some(time) => {
                let inc = match my_inc {
                    Some(v) => v,
                    None => 0,
                };
                let movestogo: u64 = match self.movestogo {
                    Some(v) => v as u64,
                    None => 30,
                };
                let overhead: u64 = 50;
                let mut soft = time / movestogo + inc * 3 / 4;
                if soft > time / 3 {
                    soft = time / 3;
                }
                if soft > time.saturating_sub(overhead) {
                    soft = time.saturating_sub(overhead);
                }
                let mut hard = soft * 3 / 2;
                if hard > time.saturating_sub(overhead) {
                    hard = time.saturating_sub(overhead);
                }
                if soft < 10 && time > 10 {
                    soft = 10;
                }
                if hard < 10 && time > 10 {
                    hard = 10;
                }
                (Some(soft), Some(hard))
            },
        }
    }
}

/// What one finished iteration reports: depth, score, its best root move,
/// nodes searched, time spent, table fill (per mille) and the principal
/// variation (the best move alone when the table gives none).
pub struct SearchInfo {
    pub depth: i32,
    pub score: i32,
    pub best_move: Move,
    pub nodes: u64,
    pub time_ms: u64,
    pub hashfull: u32,
    pub pv: Vec<Move>,
}

/// Scores this close to `MATE` announce a mate.
pub open spec fn is_mate_score(score: int) -> bool {
    score > MATE - 100 || score < -(MATE - 100)
}

/// The number of moves to the mate a mate score announces (negative when
/// being mated).
pub open spec fn mate_in(score: int) -> int {
    if score > 0 {
        crate::history::trunc_div(MATE - score + 1, 2)
    } else {
        -crate::history::trunc_div(MATE + score, 2)
    }
}

/// The UCI score text: `mate N` for a mate score, `cp N` otherwise.
pub open spec fn spec_score_text(score: int) -> Seq<char> {
    if is_mate_score(score) {
        "mate "@ + signed_text(mate_in(score))
    } else {
        "cp "@ + signed_text(score)
    }
}

/// The decimal text of an integer, with a minus sign when negative.
pub open spec fn signed_text(n: int) -> Seq<char> {
    if n < 0 {
        seq!['-'] + dec_string((-n) as nat)
    } else {
        dec_string(n as nat)
    }
}

pub(crate) fn push_signed(s: &mut String, n: i32)
    ensures
        final(s)@ == old(s)@ + signed_text(n as int),
{
    if n < 0 {
        push_char(s, '-');
        let m: u32 = if n == i32::MIN {
            2147483648u32
        } else {
            (-n) as u32
        };
        push_decimal(s, m);
        assert(s@ =~= old(s)@ + signed_text(n as int));
    } else {
        push_decimal(s, n as u32);
    }
}

/// The score as UCI prints it.
pub fn score_text(score: i32) -> (s: String)
    ensures
        s@ == spec_score_text(score as int),
{
    if score > MATE - 100 || score < -(MATE - 100) {
        let m = if score > 0 {
            (MATE - score + 1) / 2
        } else {
            -((MATE + score) / 2)
        };
        let mut s = "mate ".to_owned();
        push_signed(&mut s, m);
        s
    } else {
        let mut s = "cp ".to_owned();
        push_signed(&mut s, score);
        s
    }
}

/// Nodes per second, or the node count when no time has passed.
pub fn nps(nodes: u64, elapsed_ms: u64) -> (r: u64)
    requires
        elapsed_ms > 0 ==> nodes * 1000 <= u64::MAX,
    ensures
        r == if elapsed_ms > 0 {
            (nodes as int) * 1000 / (elapsed_ms as int)
        } else {
            nodes as int
        },
{
    if elapsed_ms > 0 {
        nodes * 1000 / elapsed_ms
    } else {
        nodes
    }
}

/// The largest score magnitude the search keeps in its table.
pub const SCORE_CAP: i32 = 0x4000_0000;

/// Every score in the table is within `SCORE_CAP`.
pub open spec fn tt_capped(tt: &TranspositionTable) -> bool {
    forall|i: int| 0 <= i < tt.entries@.len() ==> -SCORE_CAP <= #[trigger] tt.entries@[i].score <= SCORE_CAP
}

/// The tables a search works with are usable: the transposition table is
/// consistent, its scores within the cap, its fill countable; history scores in range.
pub open spec fn tables_ok(tt: &TranspositionTable, history: &HistoryTable) -> bool {
    &&& tt.wf()
    &&& tt_capped(tt)
    &&& tt.entries@.len() * 1000 <= usize::MAX
    &&& history.wf()
}

/// The state of one search: its limits and clock, the node count and the
/// best root move found so far.
struct Searcher {
    limits: SearchLimits,
    start: Instant,
    soft_limit: Option<u64>,
    hard_limit: Option<u64>,
    nodes: u64,
    best_move: Move,
    best_score: i32,
    stop: bool,
}

impl Searcher {
    /// The parts of the searcher a search below the root leaves alone.
    spec fn same_setup(&self, o: &Searcher) -> bool {
        &&& self.limits == o.limits
        &&& self.soft_limit == o.soft_limit
        &&& self.hard_limit == o.hard_limit
        &&& self.stop == o.stop
    }

    /// Nothing can stop this search early: no stop request, no node limit
    /// and no hard time limit.
    spec fn unlimited(&self) -> bool {
        &&& !self.stop
        &&& self.limits.nodes is None
        &&& self.hard_limit is None
    }

    /// The node limit is reached.
    spec fn node_limit_hit(&self) -> bool {
        self.limits.nodes matches Some(n) && self.nodes >= n
    }

    /// Stop when told to, when the node limit is reached, or when the hard
    /// time limit has passed.
    fn should_stop(&self) -> (r: bool)
        ensures
            self.stop || self.node_limit_hit() ==> r,
            r ==> self.stop || self.node_limit_hit() || self.hard_limit is Some,
    {
        if self.stop {
            return true;
        }
        if let Some(nodes_limit) = self.limits.nodes {
            if self.nodes >= nodes_limit {
                return true;
            }
        }
        if let Some(hard) = self.hard_limit {
            if elapsed_ms(&self.start) >= hard {
                return true;
            }
        }
        false
    }

    /// The soft time limit has passed.
    fn time_exceeded_soft(&self) -> (r: bool)
        ensures
            r ==> self.soft_limit is Some,
    {
        if let Some(soft) = self.soft_limit {
            elapsed_ms(&self.start) >= soft
        } else {
            false
        }
    }
}

/// The move takes something: the piece on its target square, or a pawn en passant.
pub open spec fn spec_is_capture(v: PosView, mv: Move) -> bool {
    let moving = v.board[move_from(mv) as int];
    let to = move_to(mv);
    if moving == 12 {
        false
    } else if pt_of_idx(moving as int) == PieceType::Pawn && to == v.en_passant {
        true
    } else {
        v.board[to as int] != 12
    }
}

fn is_capture(pos: &Position, mv: Move) -> (r: bool)
    requires
        pos.board@.len() == 64,
    ensures
        r == spec_is_capture(pos@, mv),
{
    proof {
        lemma_move_bounds(mv);
    }
    let to = mv.to_sq();
    let moving = pos.board[mv.from_sq() as usize];
    if moving == NO_PIECE {
        return false;
    }
    let is_ep = piece_type(moving) == PieceType::Pawn && to == pos.en_passant;
    if is_ep {
        return true;
    }
    pos.board[to as usize] != NO_PIECE
}

/// The ordering value of a piece type (king 20000).
pub open spec fn piece_order_value(pt: PieceType) -> int {
    match pt {
        PieceType::Pawn => 100,
        PieceType::Knight => 320,
        PieceType::Bishop => 330,
        PieceType::Rook => 500,
        PieceType::Queen => 900,
        PieceType::King => 20000,
    }
}

fn piece_order_value_of(pt: PieceType) -> (r: i32)
    ensures
        r == piece_order_value(pt),
{
    match pt {
        PieceType::Pawn => 100,
        PieceType::Knight => 320,
        PieceType::Bishop => 330,
        PieceType::Rook => 500,
        PieceType::Queen => 900,
        PieceType::King => 20000,
    }
}

/// The extra value of a promotion piece.
pub open spec fn promo_value(pt: PieceType) -> int {
    match pt {
        PieceType::Queen => 400,
        PieceType::Rook => 200,
        PieceType::Bishop => 100,
        PieceType::Knight => 100,
        _ => 0,
    }
}

/// The order in which moves are tried, highest first: the table's move,
/// then promotions (with ten times the victim's value), then captures by
/// most valuable victim and least valuable attacker, then killers, then the
/// history score scaled down by 32.
pub open spec fn spec_score_move(
    v: PosView,
    killers: KillerTable,
    history: HistoryTable,
    mv: Move,
    tt_move: Move,
    ply: int,
) -> int {
    if mv.0 == tt_move.0 && tt_move.0 != 0 {
        20000
    } else {
        let from = move_from(mv) as int;
        let to = move_to(mv) as int;
        let moving = v.board[from];
        let captured = v.board[to];
        let is_ep = moving != 12 && pt_of_idx(moving as int) == PieceType::Pawn && to
            == v.en_passant;
        let victim = if is_ep {
            piece_code(crate::types::spec_opposite(v.side), PieceType::Pawn)
        } else {
            captured as int
        };
        match move_promo(mv) {
            Some(promo) => 900 + promo_value(promo) + (if victim != 12 {
                10 * piece_order_value(pt_of_idx(victim))
            } else {
                0
            }) + 2000,
            None => {
                if victim != 12 {
                    10 * piece_order_value(pt_of_idx(victim)) - (if moving != 12 {
                        piece_order_value(pt_of_idx(moving as int))
                    } else {
                        0
                    }) + 1000
                } else {
                    let k = if ply >= 64 {
                        0
                    } else if killers.killers@[ply]@[0].0 == mv.0 {
                        8000
                    } else if killers.killers@[ply]@[1].0 == mv.0 {
                        7000
                    } else {
                        0
                    };
                    if k != 0 {
                        k
                    } else {
                        crate::history::trunc_div(
                            history.at(crate::types::color_idx(v.side), from, to) as int,
                            32,
                        )
                    }
                }
            },
        }
    }
}

fn score_move(
    pos: &Position,
    killers: &KillerTable,
    history: &HistoryTable,
    mv: Move,
    tt_move: Move,
    ply: usize,
) -> (r: i32)
    requires
        pos.board@.len() == 64,
    ensures
        r == spec_score_move(pos@, *killers, *history, mv, tt_move, ply as int),
{
    if mv.0 == tt_move.0 && !tt_move.is_null() {
        return 20000;
    }
    proof {
        lemma_move_bounds(mv);
    }
    let from = mv.from_sq();
    let to = mv.to_sq();
    let moving = pos.board[from as usize];
    let captured = pos.board[to as usize];
    let is_ep = moving != NO_PIECE && piece_type(moving) == PieceType::Pawn && to
        == pos.en_passant;
    let victim = if is_ep {
        make_piece(pos.side_to_move.opposite(), PieceType::Pawn)
    } else {
        captured
    };
    let mut score: i32 = 0;
    if let Some(promo) = mv.promotion() {
        score = score + 900 + match promo {
            PieceType::Queen => 400,
            PieceType::Rook => 200,
            PieceType::Bishop => 100,
            PieceType::Knight => 100,
            _ => 0,
        };
        if victim != NO_PIECE {
            let victim_val = piece_order_value_of(piece_type(victim));
            score = score + 10 * victim_val;
        }
        return score + 2000;
    }
    if victim != NO_PIECE {
        let victim_val = piece_order_value_of(piece_type(victim));
        let attacker_val = if moving != NO_PIECE {
            piece_order_value_of(piece_type(moving))
        } else {
            0
        };
        score = score + 10 * victim_val - attacker_val + 1000;
        return score;
    }
    let killer_score = killers.score_killer(ply, mv);
    if killer_score != 0 {
        return killer_score;
    }
    let hist = history.score(pos.side_to_move.as_usize(), mv);
    score = score + hist;
    score
}

/// Sorts by score, highest first, by insertion (equal scores keep their
/// order); the result holds the same entries as the input.
fn sort_by_score(v: &mut Vec<(Move, i32)>)
    ensures
        final(v)@.len() == old(v)@.len(),
        forall|k: int| 0 <= k < final(v)@.len() ==> old(v)@.contains(#[trigger] final(v)@[k]),
        forall|a: int, b: int| 0 <= a < b < final(v)@.len() ==> final(v)@[a].1 >= final(v)@[b].1,
        final(v)@.to_multiset() == old(v)@.to_multiset(),
{
    let n = v.len();
    let mut i: usize = 1;
    if n == 0 {
        return;
    }
    while i < n
        invariant
            1 <= i <= n,
            n == v@.len(),
            n == old(v)@.len(),
            forall|k: int| 0 <= k < n ==> old(v)@.contains(#[trigger] v@[k]),
            forall|a: int, b: int| 0 <= a < b < i ==> v@[a].1 >= v@[b].1,
            v@.to_multiset() == old(v)@.to_multiset(),
        decreases n - i,
    {
        let mut j: usize = i;
        while j > 0 && v[j - 1].1 < v[j].1
            invariant
                0 <= j <= i < n,
                n == v@.len(),
                forall|k: int| 0 <= k < n ==> old(v)@.contains(#[trigger] v@[k]),
                forall|a: int, b: int| 0 <= a < b <= i && a != j && b != j ==> v@[a].1 >= v@[b].1,
                forall|a: int, b: int| 0 <= a < j && j < b <= i ==> #[trigger] v@[a].1 >= #[trigger] v@[b].1,
                forall|b: int| j < b <= i ==> v@[j as int].1 >= v@[b].1,
                v@.to_multiset() == old(v)@.to_multiset(),
            decreases j,
        {
            let a = v[j - 1];
            let b = v[j];
            let ghost before = v@;
            v.set(j - 1, b);
            let ghost mid = v@;
            v.set(j, a);
            proof {
                broadcast use vstd::multiset::group_multiset_axioms;
                broadcast use vstd::multiset::group_multiset_properties;
                broadcast use vstd::seq_lib::group_to_multiset_ensures;
                assert(mid == before.update(j - 1, b));
                assert(v@ == mid.update(j as int, a));
                vstd::seq_lib::to_multiset_update(before, j - 1, b);
                vstd::seq_lib::to_multiset_update(mid, j as int, a);
                assert(before[j - 1] == a && mid[j as int] == b);
                assert(before.contains(a));
                assert(before.to_multiset().count(a) > 0);
                assert(before.to_multiset().insert(b).remove(a).count(b) > 0);
                assert(v@.to_multiset() =~= before.to_multiset());
                assert forall|k: int| 0 <= k < n implies old(v)@.contains(#[trigger] v@[k]) by {
                    if k == j - 1 {
                        assert(v@[k] == before[j as int]);
                    } else if k == j {
                        assert(v@[k] == before[j - 1]);
                    } else {
                        assert(v@[k] == before[k]);
                    }
                }
            }
            j -= 1;
        }
        i += 1;
    }
}

/// The legal captures and promotions, in generation order (what the
/// quiescence search tries when not in check).
fn legal_captures(pos: &mut Position, list: &mut MoveList)
    requires
        old(pos).wf(),
        gen_ready(old(pos)@),
    ensures
        final(pos).wf(),
        final(pos)@ == old(pos)@,
        forall|k: int| 0 <= k < final(list)@.len() ==> legal_moves(old(pos)@).contains(#[trigger] final(list)@[k]),
{
    broadcast use vstd::seq_lib::group_filter_ensures;

    let ghost v = pos@;
    let mut caps = MoveList::new();
    proof {
        let k = choose|i: int| 0 <= i < 64 && #[trigger] v.board[i] == piece_code(v.side, PieceType::King);
    }
    generate_captures(pos, &mut caps);
    list.clear();
    let us = pos.side_to_move;
    let n = caps.len();
    let mut i: usize = 0;
    while i < n
        invariant
            pos.wf(),
            pos@ == v,
            gen_ready(v),
            us == v.side,
            caps@ == pseudo_moves(v).filter(capture_pred(v)),
            n == caps@.len(),
            i <= n,
            forall|k: int| 0 <= k < list@.len() ==> legal_moves(v).contains(#[trigger] list@[k]),
        decreases n - i,
    {
        let mv = caps.get(i);
        proof {
            assert(caps@.contains(mv)) by {
                assert(caps@[i as int] == mv);
            }
            pseudo_moves(v).lemma_filter_contains_rev(capture_pred(v), mv);
            lemma_pseudo_facts(v, mv);
            lemma_facts_reversible(v, mv);
            crate::position::lemma_unmake_undoes_make(v, mv);
        }
        pos.make_move(mv);
        let king_sq = pos.king_square(us);
        proof {
            lemma_king_square_of(pos.board@, us, king_sq as int);
        }
        let in_check = is_square_attacked(pos, king_sq, pos.side_to_move);
        pos.unmake_move(mv);
        if !in_check {
            proof {
                assert(legal_pred(v)(mv));
                assert(pseudo_moves(v).filter(legal_pred(v)).contains(mv));
            }
            let ghost old_list = list@;
            list.push(mv);
            proof {
                assert forall|k: int| 0 <= k < list@.len() implies legal_moves(v).contains(#[trigger] list@[k]) by {
                    if k < old_list.len() {
                        assert(list@[k] == old_list[k]);
                    }
                }
            }
        }
        i += 1;
    }
}

/// The side to move's king is attacked.
fn is_in_check(pos: &Position) -> (r: bool)
    requires
        pos.wf(),
        gen_ready(pos@),
    ensures
        r == square_attacked(pos.board@, king_square_of(pos.board@, pos.side_to_move), crate::types::spec_opposite(pos.side_to_move)),
{
    let king_sq = pos.king_square(pos.side_to_move);
    proof {
        lemma_king_square_of(pos.board@, pos.side_to_move, king_sq as int);
    }
    is_square_attacked(pos, king_sq, pos.side_to_move.opposite())
}

/// A table score read back at a ply of at most 64 stays within the cap.
proof fn lemma_retrieve_capped(score: int, ply: int)
    requires
        -SCORE_CAP <= score <= SCORE_CAP,
        0 <= ply <= 64,
    ensures
        -SCORE_CAP <= retrieve_adjust(score, ply) <= SCORE_CAP,
{
}

/// Stores a result unless its score, made relative to the node, would leave the cap.
fn store_capped(
    tt: &mut TranspositionTable,
    hash: u64,
    best_move: Move,
    score: i32,
    depth: u8,
    flag: u8,
    ply: i32,
)
    requires
        old(tt).wf(),
        tt_capped(old(tt)),
        -SCORE_CAP <= score <= SCORE_CAP,
        0 <= ply <= 64,
    ensures
        final(tt).wf(),
        tt_capped(final(tt)),
        final(tt).entries@.len() == old(tt).entries@.len(),
        final(tt).age == old(tt).age,
{
    let adjusted = if score > 29000 {
        score + ply
    } else if score < -29000 {
        score - ply
    } else {
        score
    };
    if -SCORE_CAP <= adjusted && adjusted <= SCORE_CAP {
        let ghost before = tt.entries@;
        assert(adjusted == store_adjust(score as int, ply as int));
        tt.store(hash, best_move, score, depth, flag, ply);
        proof {
            let idx = crate::tt::slot_of(hash, tt.mask);
            let stored = crate::tt::stored_entry(hash, best_move, score, depth, flag, ply, tt.age);
            crate::tt::lemma_slot_in_table(hash, tt.mask);
            assert(stored.score == adjusted);
            assert(tt.entries@ == before.update(idx, stored) || tt.entries@ == before);
            assert forall|i: int| 0 <= i < tt.entries@.len() implies -SCORE_CAP <= #[trigger] tt.entries@[i].score <= SCORE_CAP by {
                if tt.entries@ == before.update(idx, stored) && i == idx {
                    assert(tt.entries@[i] == stored);
                } else {
                    assert(tt.entries@[i] == before[i]);
                }
            }
        }
    }
}

/// A position the search can work on at `ply`: playable, and the move
/// counter cannot overflow within the plies left.
pub open spec fn node_ready(v: PosView, ply: int) -> bool {
    &&& playable(v)
    &&& v.fullmove + 64 <= 65535 + ply
}

/// The moves of `list` with their ordering scores, in list order.
fn score_moves(
    pos: &Position,
    killers: &KillerTable,
    history: &HistoryTable,
    list: &MoveList,
    tt_move: Move,
    ply: usize,
) -> (scored: Vec<(Move, i32)>)
    requires
        pos.board@.len() == 64,
    ensures
        scored@.len() == list@.len(),
        forall|k: int| 0 <= k < scored@.len() ==> #[trigger] scored@[k].0 == list@[k],
{
    let mut scored: Vec<(Move, i32)> = Vec::new();
    let n = list.len();
    let mut k: usize = 0;
    while k < n
        invariant
            k <= n,
            n == list@.len(),
            pos.board@.len() == 64,
            scored@.len() == k,
            forall|j: int| 0 <= j < k ==> #[trigger] scored@[j].0 == list@[j],
        decreases n - k,
    {
        let m = list.get(k);
        let sc = score_move(pos, killers, history, m, tt_move, ply);
        scored.push((m, sc));
        k += 1;
    }
    scored
}

/// The side to move's king is attacked.
pub open spec fn in_check(v: PosView) -> bool {
    square_attacked(v.board, king_square_of(v.board, v.side), crate::types::spec_opposite(v.side))
}

/// No table entry found for a node is deep enough to end its search at `depth`.
pub open spec fn no_deciding_entry(e: Option<crate::tt::TTEntry>, depth: int) -> bool {
    match e {
        Some(entry) => (entry.depth as int) < depth,
        None => true,
    }
}

/// Quiescence search: stand pat, then legal captures and promotions (all
/// legal moves when in check), best first. The position and every table
/// invariant are kept; the score stays within the cap. When nothing can stop
/// the search: at the last ply the score is the evaluation, a draw scores 0,
/// and without a table entry the score is at least beta or the stand-pat
/// evaluation.
fn qsearch(
    pos: &mut Position,
    tt: &mut TranspositionTable,
    history: &mut HistoryTable,
    killers: &mut KillerTable,
    s: &mut Searcher,
    alpha0: i32,
    beta: i32,
    ply: usize,
) -> (r: i32)
    requires
        old(pos).wf(),
        node_ready(old(pos)@, ply as int),
        ply <= 64,
        tables_ok(old(tt), old(history)),
        -SCORE_CAP <= alpha0 < beta <= SCORE_CAP,
    ensures
        final(pos).wf(),
        final(pos)@ == old(pos)@,
        tables_ok(final(tt), final(history)),
        final(tt).entries@.len() == old(tt).entries@.len(),
        -SCORE_CAP <= r <= SCORE_CAP,
        final(s).same_setup(old(s)),
        final(s).best_move == old(s).best_move,
        final(s).best_score == old(s).best_score,
        final(tt).age == old(tt).age,
        old(s).unlimited() && ply >= 64 ==> r == crate::eval::spec_evaluate(*old(pos)),
        old(s).unlimited() && ply < 64 && (crate::position::spec_draw(old(pos)@)
            || crate::position::spec_repetition(old(pos)@)) ==> r == 0,
        old(s).unlimited() && ply < 64 && !(crate::position::spec_draw(old(pos)@)
            || crate::position::spec_repetition(old(pos)@)) && old(tt).spec_probe(old(pos).hash)
            is None ==> r >= beta || r >= crate::eval::spec_evaluate(*old(pos)),
    decreases 0int, 64 - ply,
{
    let ghost v = pos@;
    let mut alpha = alpha0;
    if s.should_stop() {
        return alpha;
    }
    s.nodes = s.nodes.wrapping_add(1);
    if ply >= MAX_PLY {
        return evaluate(pos);
    }
    if pos.is_draw() || pos.is_repetition() {
        return 0;
    }
    let hash = pos.hash;
    if let Some(entry) = tt.probe(hash) {
        proof {
            crate::tt::lemma_slot_in_table(hash, tt.mask);
            lemma_retrieve_capped(entry.score as int, ply as int);
        }
        let (score, _, _, flag) = tt.retrieve_with_correction(entry, ply as i32);
        if flag == TT_EXACT {
            return score;
        }
        if flag == TT_LOWER && score >= beta {
            return score;
        }
        if flag == TT_UPPER && score <= alpha {
            return score;
        }
    }
    let stand_pat = evaluate(pos);
    if stand_pat >= beta {
        return beta;
    }
    if alpha < stand_pat {
        alpha = stand_pat;
    }
    let in_check = is_in_check(pos);
    let mut list = MoveList::new();
    if in_check {
        generate_legal(pos, &mut list);
    } else {
        legal_captures(pos, &mut list);
    }
    let tt_move = match tt.probe(hash) {
        Some(e) => e.best_move,
        None => Move(0),
    };
    let built = score_moves(pos, killers, history, &list, tt_move, ply);
    let mut scored = built;
    sort_by_score(&mut scored);
    let mut best_score = stand_pat;
    let mut best_move_q = Move(0);
    let original_alpha = alpha;
    let n = scored.len();
    let mut i: usize = 0;
    while i < n
        invariant
            pos.wf(),
            pos@ == v,
            v == old(pos)@,
            node_ready(v, ply as int),
            ply < 64,
            tables_ok(tt, history),
            tt.entries@.len() == old(tt).entries@.len(),
            s.same_setup(old(s)),
            s.best_move == old(s).best_move,
            s.best_score == old(s).best_score,
            tt.age == old(tt).age,
            !(crate::position::spec_draw(v) || crate::position::spec_repetition(v)),
            alpha >= stand_pat,
            stand_pat == crate::eval::spec_evaluate(*old(pos)),
            -SCORE_CAP <= alpha < beta <= SCORE_CAP,
            -SCORE_CAP <= best_score <= SCORE_CAP,
            n == scored@.len(),
            forall|k: int| 0 <= k < n ==> legal_moves(v).contains(#[trigger] scored@[k].0),
        decreases n - i,
    {
        let (mv, _) = scored[i];
        proof {
            assert(legal_moves(v).contains(scored@[i as int].0));
            lemma_legal_playable_move(v, mv);
            lemma_legal_move_keeps_playable(v, mv);
            crate::position::lemma_unmake_undoes_make(v, mv);
        }
        pos.make_move(mv);
        let child = qsearch(pos, tt, history, killers, s, -beta, -alpha, ply + 1);
        let score = -child;
        pos.unmake_move(mv);
        if s.should_stop() {
            return alpha;
        }
        if score >= beta {
            store_capped(tt, hash, mv, beta, 0, TT_LOWER, ply as i32);
            return beta;
        }
        if score > best_score {
            best_score = score;
            best_move_q = mv;
        }
        if score > alpha {
            alpha = score;
        }
        i += 1;
    }
    let flag = if best_score <= original_alpha {
        TT_UPPER
    } else if best_score >= beta {
        TT_LOWER
    } else {
        TT_EXACT
    };
    if !best_move_q.is_null() || flag != TT_EXACT {
        store_capped(tt, hash, best_move_q, best_score, 0, flag, ply as i32);
    }
    alpha
}

/// Principal-variation alpha-beta search to `depth` plies, then quiescence.
/// The position and every table invariant are kept; the score stays within
/// the cap; only at the root does the best move change, and only to a
/// non-null move. When nothing can stop the search: a draw below the root
/// scores 0, and a node without legal moves (and without a deep enough table
/// entry, inside the mate window) scores a mate in `ply` when in check, else 0.
fn negamax(
    pos: &mut Position,
    tt: &mut TranspositionTable,
    history: &mut HistoryTable,
    killers: &mut KillerTable,
    s: &mut Searcher,
    depth: i32,
    alpha0: i32,
    beta: i32,
    ply: usize,
) -> (r: i32)
    requires
        old(pos).wf(),
        node_ready(old(pos)@, ply as int),
        0 <= depth,
        depth + ply <= 64,
        tables_ok(old(tt), old(history)),
        -SCORE_CAP <= alpha0 < beta <= SCORE_CAP,
    ensures
        final(pos).wf(),
        final(pos)@ == old(pos)@,
        tables_ok(final(tt), final(history)),
        final(tt).entries@.len() == old(tt).entries@.len(),
        -SCORE_CAP <= r <= SCORE_CAP,
        final(s).same_setup(old(s)),
        ply > 0 ==> final(s).best_move == old(s).best_move && final(s).best_score == old(s).best_score,
        final(s).best_move == old(s).best_move || final(s).best_move.0 != 0,
        final(tt).age == old(tt).age,
        old(s).unlimited() && depth >= 1 && ply > 0 && (crate::position::spec_draw(old(pos)@)
            || crate::position::spec_repetition(old(pos)@)) ==> r == 0,
        old(s).unlimited() && depth >= 1 && !(ply > 0 && (crate::position::spec_draw(old(pos)@)
            || crate::position::spec_repetition(old(pos)@))) && legal_moves(old(pos)@).len() == 0
            && alpha0 < MATE - ply - 1 && -MATE + ply < beta && no_deciding_entry(
            old(tt).spec_probe(old(pos).hash),
            depth as int,
        ) ==> r == if in_check(old(pos)@) {
            -MATE + ply
        } else {
            0
        },
    decreases depth, 65int,
{
    let ghost v = pos@;
    let mut alpha = alpha0;
    if s.should_stop() {
        return alpha;
    }
    if depth == 0 {
        return qsearch(pos, tt, history, killers, s, alpha, beta, ply);
    }
    s.nodes = s.nodes.wrapping_add(1);
    if ply > 0 && (pos.is_draw() || pos.is_repetition()) {
        return 0;
    }
    let mate_alpha = -MATE + ply as i32;
    let mate_beta = MATE - ply as i32 - 1;
    if mate_alpha > alpha {
        alpha = mate_alpha;
        if alpha >= beta {
            return alpha;
        }
    }
    if mate_beta < beta {
        if mate_beta <= alpha {
            return mate_beta;
        }
    }
    let hash = pos.hash;
    let mut tt_move = Move(0);
    if let Some(entry) = tt.probe(hash) {
        proof {
            crate::tt::lemma_slot_in_table(hash, tt.mask);
            lemma_retrieve_capped(entry.score as int, ply as int);
        }
        let (score, mv, d, flag) = tt.retrieve_with_correction(entry, ply as i32);
        tt_move = mv;
        let tt_score = score;
        if d >= depth as u8 {
            if flag == TT_EXACT {
                if ply == 0 && !tt_move.is_null() {
                    s.best_move = tt_move;
                }
                return tt_score;
            }
            if flag == TT_LOWER && tt_score >= beta {
                if ply == 0 && !tt_move.is_null() {
                    s.best_move = tt_move;
                }
                return tt_score;
            }
            if flag == TT_UPPER && tt_score <= alpha {
                return tt_score;
            }
        }
    }
    let mut list = MoveList::new();
    generate_legal(pos, &mut list);
    if list.is_empty() {
        if is_in_check(pos) {
            return -MATE + ply as i32;
        } else {
            return 0;
        }
    }
    let built = score_moves(pos, killers, history, &list, tt_move, ply);
    let mut scored = built;
    sort_by_score(&mut scored);
    let mut best_score = -INF;
    let mut best_move = Move(0);
    let original_alpha = alpha;
    let mut moves_searched: usize = 0;
    let mut quiets_searched: Vec<Move> = Vec::new();
    let us = pos.side_to_move;
    let n = scored.len();
    let mut i: usize = 0;
    let mut cut = false;
    while i < n && !cut
        invariant
            pos.wf(),
            pos@ == v,
            v == old(pos)@,
            us == v.side,
            node_ready(v, ply as int),
            ply < 64,
            1 <= depth,
            depth + ply <= 64,
            tables_ok(tt, history),
            tt.entries@.len() == old(tt).entries@.len(),
            s.same_setup(old(s)),
            ply > 0 ==> s.best_move == old(s).best_move && s.best_score == old(s).best_score,
            s.best_move == old(s).best_move || s.best_move.0 != 0,
            tt.age == old(tt).age,
            -SCORE_CAP <= alpha <= SCORE_CAP,
            !cut ==> alpha < beta,
            -SCORE_CAP <= beta <= SCORE_CAP,
            -SCORE_CAP <= best_score <= SCORE_CAP,
            moves_searched <= i,
            n == scored@.len(),
            forall|k: int| 0 <= k < n ==> legal_moves(v).contains(#[trigger] scored@[k].0),
        decreases n - i, if cut { 0int } else { 1int },
    {
        let (mv, _) = scored[i];
        proof {
            assert(legal_moves(v).contains(scored@[i as int].0));
            lemma_legal_playable_move(v, mv);
            lemma_legal_move_keeps_playable(v, mv);
            crate::position::lemma_unmake_undoes_make(v, mv);
            crate::types::lemma_move_bounds(mv);
        }
        let is_cap = is_capture(pos, mv) || mv.is_promotion();
        pos.make_move(mv);
        let score;
        if moves_searched == 0 {
            let child = negamax(pos, tt, history, killers, s, depth - 1, -beta, -alpha, ply + 1);
            score = -child;
        } else {
            let child = negamax(pos, tt, history, killers, s, depth - 1, -alpha - 1, -alpha, ply + 1);
            let mut null_score = -child;
            if null_score > alpha && null_score < beta {
                let again = negamax(pos, tt, history, killers, s, depth - 1, -beta, -alpha, ply + 1);
                null_score = -again;
            }
            score = null_score;
        }
        pos.unmake_move(mv);
        if s.should_stop() {
            return best_score;
        }
        if score > best_score {
            best_score = score;
            best_move = mv;
            if ply == 0 {
                proof {
                    let x = mv.0;
                    assert(x == 0 ==> (x & 0x3F) == ((x >> 6) & 0x3F)) by (bit_vector);
                }
                s.best_move = mv;
                s.best_score = score;
            }
        }
        if score > alpha {
            alpha = score;
        }
        if alpha >= beta {
            if !is_cap {
                killers.store(ply, mv);
                proof {
                    assert(0 <= depth * depth <= 4096) by (nonlinear_arith)
                        requires
                            1 <= depth <= 64,
                    ;
                    let e = history.at(crate::types::color_idx(us), move_from(mv) as int, move_to(mv) as int);
                    assert(-16384 <= e <= 16384);
                    crate::history::lemma_history_update_fits(e as int, depth * depth);
                }
                history.update_quiet(us.as_usize(), mv, depth, true);
                let nq = quiets_searched.len();
                let mut q: usize = 0;
                while q < nq
                    invariant
                        q <= nq,
                        nq == quiets_searched@.len(),
                        history.wf(),
                        1 <= depth <= 64,
                        us == v.side,
                    decreases nq - q,
                {
                    let qm = quiets_searched[q];
                    proof {
                        assert(0 <= depth * depth <= 4096) by (nonlinear_arith)
                            requires
                                1 <= depth <= 64,
                        ;
                        crate::types::lemma_move_bounds(qm);
                        let e = history.at(crate::types::color_idx(us), move_from(qm) as int, move_to(qm) as int);
                        assert(-16384 <= e <= 16384);
                        crate::history::lemma_history_update_fits(e as int, -(depth * depth));
                    }
                    history.update_quiet(us.as_usize(), qm, depth, false);
                    q += 1;
                }
            }
            cut = true;
        } else {
            if !is_cap {
                quiets_searched.push(mv);
            }
            moves_searched += 1;
            i += 1;
        }
    }
    let flag = if best_score <= original_alpha {
        TT_UPPER
    } else if best_score >= beta {
        TT_LOWER
    } else {
        TT_EXACT
    };
    store_capped(tt, hash, best_move, best_score, depth as u8, flag, ply as i32);
    best_score
}

/// The position after playing the first `k` moves of `line` from `v`.
pub open spec fn line_pos(v: PosView, line: Seq<Move>, k: nat) -> PosView
    decreases k,
{
    if k == 0 {
        v
    } else {
        crate::position::spec_make(line_pos(v, line, (k - 1) as nat), line[k - 1])
    }
}

/// Every move of `line` is legal where it is played.
pub open spec fn legal_line(v: PosView, line: Seq<Move>) -> bool {
    forall|k: int|
        0 <= k < line.len() ==> legal_moves(line_pos(v, line, k as nat)).contains(#[trigger] line[k])
}

/// The `k`-th move of `line` can be played and undone where it stands.
pub open spec fn line_step_ok(v: PosView, line: Seq<Move>, k: int) -> bool {
    &&& crate::position::view_ok(line_pos(v, line, k as nat))
    &&& crate::position::move_reversible(line_pos(v, line, k as nat), line[k])
}

/// Extending a line does not change the positions along its prefix.
proof fn lemma_line_pos_prefix(v: PosView, line: Seq<Move>, m: Move, k: nat)
    requires
        k <= line.len(),
    ensures
        line_pos(v, line.push(m), k) == line_pos(v, line, k),
    decreases k,
{
    if k > 0 {
        lemma_line_pos_prefix(v, line, m, (k - 1) as nat);
        assert(line.push(m)[k - 1] == line[k - 1]);
    }
}

/// A line stays legal and undoable when extended by a legal move of its last position.
#[verifier::spinoff_prover]
#[verifier::rlimit(60)]
proof fn lemma_line_extend(v: PosView, line: Seq<Move>, mv: Move)
    requires
        legal_line(v, line),
        forall|k: int| 0 <= k < line.len() ==> #[trigger] line_step_ok(v, line, k),
        playable(line_pos(v, line, line.len() as nat)),
        legal_moves(line_pos(v, line, line.len() as nat)).contains(mv),
    ensures
        legal_line(v, line.push(mv)),
        forall|k: int| 0 <= k < line.push(mv).len() ==> #[trigger] line_step_ok(v, line.push(mv), k),
        line_pos(v, line.push(mv), line.push(mv).len() as nat) == crate::position::spec_make(
            line_pos(v, line, line.len() as nat),
            mv,
        ),
{
    let p0 = line_pos(v, line, line.len() as nat);
    let np = line.push(mv);
    lemma_legal_playable_move(p0, mv);
    assert forall|k: int| 0 <= k <= line.len() implies #[trigger] line_pos(v, np, k as nat) == line_pos(v, line, k as nat) by {
        lemma_line_pos_prefix(v, line, mv, k as nat);
    }
    assert(np[line.len() as int] == mv);
    assert forall|k: int| 0 <= k < np.len() implies legal_moves(line_pos(v, np, k as nat)).contains(#[trigger] np[k]) by {
        if k < line.len() {
            assert(np[k] == line[k]);
        }
    }
    assert forall|k: int| 0 <= k < np.len() implies #[trigger] line_step_ok(v, np, k) by {
        if k < line.len() {
            assert(np[k] == line[k]);
            assert(line_step_ok(v, line, k));
        }
    }
}

/// A legal move is not the null move.
proof fn lemma_legal_not_null(v: PosView, m: Move)
    requires
        playable(v),
        legal_moves(v).contains(m),
    ensures
        m.0 != 0,
{
    lemma_legal_playable_move(v, m);
    let x = m.0;
    assert(x == 0 ==> (x & 0x3F) == ((x >> 6) & 0x3F)) by (bit_vector);
}

/// `mv` is in the list (compared by encoding).
fn list_has(list: &MoveList, mv: Move) -> (r: bool)
    ensures
        r == list@.contains(mv),
{
    let n = list.len();
    let mut j: usize = 0;
    while j < n
        invariant
            j <= n,
            n == list@.len(),
            forall|k: int| 0 <= k < j ==> list@[k] != mv,
        decreases n - j,
    {
        if list.get(j).0 == mv.0 {
            proof {
                assert(list@[j as int] == mv);
            }
            return true;
        }
        j += 1;
    }
    false
}

/// The principal variation the table holds from `pos`: the table's move for
/// each position while its slot holds that position's key, the move is not
/// null and is legal, and no position repeats; at most 16 moves. The position
/// is left as it was.
#[verifier::rlimit(80)]
#[verifier::spinoff_prover]
fn extract_pv(pos: &mut Position, tt: &TranspositionTable) -> (pv: Vec<Move>)
    requires
        old(pos).wf(),
        node_ready(old(pos)@, 0),
        tt.wf(),
    ensures
        final(pos).wf(),
        final(pos)@ == old(pos)@,
        pv@.len() <= 16,
        legal_line(old(pos)@, pv@),
{
    let ghost v = pos@;
    let mut pv: Vec<Move> = Vec::new();
    let mut seen: HashSet<u64> = HashSet::new();
    let mut count: usize = 0;
    let mut done = false;
    while count < 32 && !done
        invariant
            pos.wf(),
            tt.wf(),
            count <= 32,
            pv@.len() <= count,
            !done ==> pv@.len() < 16,
            pv@.len() <= 16,
            pos@ == line_pos(v, pv@, pv@.len() as nat),
            playable(pos@),
            pos@.fullmove <= v.fullmove + pv@.len(),
            v.fullmove + 64 <= 65535,
            legal_line(v, pv@),
            forall|k: int| 0 <= k < pv@.len() ==> #[trigger] line_step_ok(v, pv@, k),
        decreases 32 - count, if done { 0int } else { 1int },
    {
        let hash = pos.hash;
        let m = tt.mask;
        let h = hash as usize;
        assert(h & m <= m) by (bit_vector);
        let idx = h & m;
        let entry = tt.entries[idx];
        if entry.key != hash || entry.best_move.is_null() {
            done = true;
        } else {
            let mv = entry.best_move;
            let mut list = MoveList::new();
            generate_legal(pos, &mut list);
            let found = list_has(&list, mv);
            if !found {
                done = true;
            } else if !seen.insert(hash) {
                done = true;
            } else {
                let ghost p0 = pos@;
                let ghost old_pv = pv@;
                proof {
                    lemma_legal_playable_move(p0, mv);
                    lemma_legal_move_keeps_playable(p0, mv);
                }
                pv.push(mv);
                pos.make_move(mv);
                proof {
                    lemma_line_extend(v, old_pv, mv);
                }
                if pv.len() >= 16 {
                    done = true;
                }
            }
        }
        count += 1;
    }
    let mut k: usize = pv.len();
    while k > 0
        invariant
            k <= pv@.len(),
            pos.wf(),
            pos@ == line_pos(v, pv@, k as nat),
            forall|i: int| 0 <= i < pv@.len() ==> #[trigger] line_step_ok(v, pv@, i),
        decreases k,
    {
        let mv = pv[k - 1];
        proof {
            let i: int = k - 1;
            let prev = line_pos(v, pv@, i as nat);
            assert(line_step_ok(v, pv@, i));
            crate::position::lemma_unmake_undoes_make(prev, mv);
        }
        pos.unmake_move(mv);
        k -= 1;
    }
    pv
}

/// Limits that give only a depth, from 1 to 64: no node count, move time or clock.
pub open spec fn depth_only(l: SearchLimits) -> bool {
    &&& l.depth matches Some(d) && 1 <= d <= 64
    &&& l.nodes is None
    &&& l.movetime is None
    &&& l.wtime is None
    &&& l.btime is None
}

/// `k` new reports for a search to depth `d`: one per depth up to `d`, or
/// fewer when the last one announces a mate.
pub open spec fn reports_to_depth(k: int, d: int, last_score: int) -> bool {
    k == d || (1 <= k < d && is_mate_score(last_score))
}

/// What an iteration report says of itself: it is the report of iteration
/// `d`, its table use is per mille, and its line is a legal line of at most 16
/// moves from the root or the single best move of the iteration.
pub open spec fn report_ok(v: PosView, info: SearchInfo, d: int) -> bool {
    &&& info.depth == d
    &&& info.hashfull <= 1000
    &&& (info.pv@.len() == 1 || (info.pv@.len() <= 16 && legal_line(v, info.pv@)))
}

/// Iterative deepening from depth 1 up to the depth asked (64 by default and
/// at most), under the node and time limits; after each finished iteration
/// its report is appended to `infos` (see `report_ok`), and the score
/// returned is that of the last report. Stops at a mate score, when the soft
/// time limit has passed under a clock, or when the search is stopped. Returns
/// the best move and its score: the null move and 0 when there is no legal
/// move, and no report; otherwise a legal move: the last report's best move
/// when it is legal here, else the first legal move. With only a depth
/// given, there is one report per depth up to it, ending earlier only at a
/// mate score (see `reports_to_depth`). The table's age advances by one; the
/// position is left as it was and the tables stay usable.
pub fn search_with_tt(
    pos: &mut Position,
    limits: SearchLimits,
    tt: &mut TranspositionTable,
    history: &mut HistoryTable,
    killers: &mut KillerTable,
    infos: &mut Vec<SearchInfo>,
) -> (r: (Move, i32))
    requires
        old(pos).wf(),
        node_ready(old(pos)@, 0),
        tables_ok(old(tt), old(history)),
        old(tt).entries@.len() > 0,
        time_budget_ok(limits, old(pos).side_to_move == Color::White),
    ensures
        final(pos).wf(),
        final(pos)@ == old(pos)@,
        tables_ok(final(tt), final(history)),
        final(tt).entries@.len() == old(tt).entries@.len(),
        final(infos)@.len() >= old(infos)@.len(),
        forall|j: int| 0 <= j < old(infos)@.len() ==> #[trigger] final(infos)@[j] == old(infos)@[j],
        forall|j: int|
            old(infos)@.len() <= j < final(infos)@.len() ==> report_ok(
                old(pos)@,
                #[trigger] final(infos)@[j],
                j - old(infos)@.len() + 1,
            ),
        final(infos)@.len() > old(infos)@.len() ==> r.1 == final(infos)@.last().score,
        final(infos)@.len() > old(infos)@.len() && legal_moves(old(pos)@).contains(
            final(infos)@.last().best_move,
        ) ==> r.0 == final(infos)@.last().best_move,
        legal_moves(old(pos)@).len() == 0 ==> final(infos)@ == old(infos)@,
        final(infos)@.len() == old(infos)@.len() ==> r.1 == 0,
        legal_moves(old(pos)@).len() == 0 ==> r.0 == Move(0) && r.1 == 0,
        legal_moves(old(pos)@).len() > 0 ==> r.0.0 != 0 && legal_moves(old(pos)@).contains(r.0),
        final(tt).age == old(tt).age.wrapping_add(1),
        depth_only(limits) && legal_moves(old(pos)@).len() > 0 ==> reports_to_depth(
            final(infos)@.len() - old(infos)@.len(),
            limits.depth.unwrap() as int,
            final(infos)@.last().score as int,
        ),
{
    let ghost v = pos@;
    let ghost n0 = infos@.len();
    let start = instant_now();
    let (soft_limit, hard_limit) = limits.time_budget(pos.side_to_move == Color::White);
    let max_depth: i32 = match limits.depth {
        Some(d) => d as i32,
        None => 64,
    };
    let mut best_move = Move(0);
    let mut best_score: i32 = 0;
    tt.new_search();
    let mut s = Searcher {
        limits,
        start,
        soft_limit,
        hard_limit,
        nodes: 0,
        best_move: Move(0),
        best_score: 0,
        stop: false,
    };
    let mut root_list = MoveList::new();
    generate_legal(pos, &mut root_list);
    if root_list.is_empty() {
        return (Move(0), 0);
    }
    let mut depth: i32 = 1;
    let mut done = false;
    while depth <= max_depth && !done
        invariant
            pos.wf(),
            pos@ == v,
            node_ready(v, 0),
            tables_ok(tt, history),
            tt.entries@.len() == old(tt).entries@.len(),
            tt.entries@.len() > 0,
            1 <= depth <= 64,
            n0 == old(infos)@.len(),
            v == old(pos)@,
            infos@.len() >= n0,
            infos@.len() - n0 == depth - 1 || (done && infos@.len() - n0 == depth),
            forall|j: int| 0 <= j < n0 ==> #[trigger] infos@[j] == old(infos)@[j],
            forall|j: int| n0 <= j < infos@.len() ==> report_ok(v, #[trigger] infos@[j], j - n0 + 1),
            infos@.len() > n0 ==> best_score == infos@.last().score,
            infos@.len() > n0 ==> best_move == infos@.last().best_move,
            infos@.len() == n0 ==> best_score == 0,
            -SCORE_CAP <= best_score <= SCORE_CAP,
            root_list@ == legal_moves(v),
            tt.age == old(tt).age.wrapping_add(1),
            s.limits == limits,
            s.soft_limit == soft_limit,
            s.hard_limit == hard_limit,
            !s.stop,
            (soft_limit, hard_limit) == spec_time_budget(limits, v.side == Color::White),
            max_depth == match limits.depth {
                Some(d) => d as i32,
                None => 64i32,
            },
            depth_only(limits) ==> {
                &&& depth <= max_depth + 1
                &&& !done ==> infos@.len() - n0 == depth - 1
                &&& done ==> depth <= max_depth
                &&& done ==> infos@.len() - n0 == depth && (depth == 64 || is_mate_score(
                    infos@.last().score as int,
                ))
            },
        decreases 64 - depth, if done { 0int } else { 1int },
    {
        let score = negamax(pos, tt, history, killers, &mut s, depth, -INF, INF, 0);
        if s.should_stop() {
            done = true;
        } else {
            best_move = s.best_move;
            best_score = score;
            let elapsed = elapsed_ms(&s.start);
            let pv_moves = extract_pv(pos, tt);
            let hashfull = tt.hashfull();
            let pv = if pv_moves.len() == 0 {
                let mut one: Vec<Move> = Vec::new();
                one.push(best_move);
                one
            } else {
                pv_moves
            };
            infos.push(
                SearchInfo {
                    depth,
                    score: best_score,
                    best_move,
                    nodes: s.nodes,
                    time_ms: elapsed,
                    hashfull,
                    pv,
                },
            );
            if s.time_exceeded_soft() && depth >= 1 {
                if !s.limits.infinite && s.limits.movetime.is_none() {
                    if s.soft_limit.is_some() {
                        done = true;
                    }
                }
            }
            if !done && (best_score > MATE - 100 || best_score < -(MATE - 100)) {
                done = true;
            }
            if !done && depth >= 64 {
                done = true;
            }
            if !done {
                depth += 1;
            }
        }
    }
    if !list_has(&root_list, best_move) {
        best_move = root_list.get(0);
        proof {
            assert(legal_moves(v).contains(root_list@[0]));
        }
    }
    proof {
        lemma_legal_not_null(v, best_move);
    }
    (best_move, best_score)
}

/// A search with fresh tables (16 megabytes of transposition table); the
/// iteration reports are not kept.
pub fn search(pos: &mut Position, limits: SearchLimits) -> (r: (Move, i32))
    requires
        old(pos).wf(),
        node_ready(old(pos)@, 0),
        time_budget_ok(limits, old(pos).side_to_move == Color::White),
    ensures
        final(pos).wf(),
        final(pos)@ == old(pos)@,
        legal_moves(old(pos)@).len() == 0 ==> r.0 == Move(0) && r.1 == 0,
        legal_moves(old(pos)@).len() > 0 ==> r.0.0 != 0 && legal_moves(old(pos)@).contains(r.0),
{
    let mut tt = TranspositionTable::new(16);
    let mut history = HistoryTable::new();
    let mut killers = KillerTable::new();
    let mut infos: Vec<SearchInfo> = Vec::new();
    proof {
        assert(tt_capped(&tt));
    }
    search_with_tt(pos, limits, &mut tt, &mut history, &mut killers, &mut infos)
}

/// Whether the tables meet what a search asks of them (see `tables_ok`).
pub fn tables_usable(tt: &TranspositionTable, history: &HistoryTable) -> (r: bool)
    ensures
        r == tables_ok(tt, history),
{
    let n = tt.entries.len();
    if n != tt.mask.wrapping_add(1) || n == 0 || n > usize::MAX / 1000 {
        return false;
    }
    let mut i: usize = 0;
    while i < n
        invariant
            i <= n,
            n == tt.entries@.len(),
            forall|j: int| 0 <= j < i ==> -SCORE_CAP <= #[trigger] tt.entries@[j].score <= SCORE_CAP,
        decreases n - i,
    {
        let sc = tt.entries[i].score;
        if sc < -SCORE_CAP || sc > SCORE_CAP {
            return false;
        }
        i += 1;
    }
    let mut c: usize = 0;
    while c < 2
        invariant
            c <= 2,
            forall|cc: int, f: int, t: int|
                0 <= cc < c && 0 <= f < 64 && 0 <= t < 64 ==> -16384 <= #[trigger] history.at(cc, f, t) <= 16384,
        decreases 2 - c,
    {
        let mut f: usize = 0;
        while f < 64
            invariant
                f <= 64,
                c < 2,
                forall|cc: int, ff: int, t: int|
                    0 <= cc < c && 0 <= ff < 64 && 0 <= t < 64 ==> -16384 <= #[trigger] history.at(cc, ff, t) <= 16384,
                forall|ff: int, t: int|
                    0 <= ff < f && 0 <= t < 64 ==> -16384 <= #[trigger] history.at(c as int, ff, t) <= 16384,
            decreases 64 - f,
        {
            let mut t: usize = 0;
            while t < 64
                invariant
                    t <= 64,
                    f < 64,
                    c < 2,
                    forall|cc: int, ff: int, tt: int|
                        0 <= cc < c && 0 <= ff < 64 && 0 <= tt < 64 ==> -16384 <= #[trigger] history.at(cc, ff, tt) <= 16384,
                    forall|ff: int, tt: int|
                        0 <= ff < f && 0 <= tt < 64 ==> -16384 <= #[trigger] history.at(c as int, ff, tt) <= 16384,
                    forall|tt: int| 0 <= tt < t ==> -16384 <= #[trigger] history.at(c as int, f as int, tt) <= 16384,
                decreases 64 - t,
            {
                let h = history.get(c, f as u8, t as u8);
                if h < -16384 || h > 16384 {
                    return false;
                }
                t += 1;
            }
            f += 1;
        }
        c += 1;
    }
    true
}

/// A helper thread's result replaces the shared one when it comes from a
/// deeper search, or from as deep a search with a higher score.
pub fn helper_result_better(shared: (Move, i32, u64), candidate: (Move, i32, u64)) -> (r: bool)
    ensures
        r == (candidate.2 > shared.2 || (candidate.2 == shared.2 && candidate.1 > shared.1)),
{
    candidate.2 > shared.2 || (candidate.2 == shared.2 && candidate.1 > shared.1)
}

/// The result of a parallel search: the main thread's, unless the helpers
/// found a move and either announce a mate the main search does not, or
/// searched deeper than 12 plies with a score more than 30 above the main one.
pub fn choose_parallel_result(main: (Move, i32), helper: (Move, i32, u64)) -> (r: (Move, i32))
    requires
        main.1 > i32::MIN,
        helper.1 > i32::MIN,
        main.1 + 30 <= i32::MAX,
    ensures
        r == if helper.0.0 == 0 {
            main
        } else if is_mate_score(helper.1 as int) && !is_mate_score(main.1 as int) {
            (helper.0, helper.1)
        } else if helper.2 > 12 && helper.1 > main.1 + 30 {
            (helper.0, helper.1)
        } else {
            main
        },
{
    if helper.0.is_null() {
        main
    } else if (helper.1 > MATE - 100 || helper.1 < -(MATE - 100)) && !(main.1 > MATE - 100 || main.1
        < -(MATE - 100)) {
        (helper.0, helper.1)
    } else if helper.2 > 12 && helper.1 > main.1 + 30 {
        (helper.0, helper.1)
    } else {
        main
    }
}

} // verus!
