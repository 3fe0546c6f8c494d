//! Move-ordering memory: killer moves per ply and the history heuristic.
use vstd::prelude::*;
use crate::types::{Move, move_from, move_to, lemma_move_bounds};

verus! {

pub const MAX_PLY: usize = 64;

/// Two killer moves (quiet moves that caused a cutoff) for each ply.
#[derive(Clone)]
pub struct KillerTable {
    pub killers: [[Move; 2]; 64],
}

impl KillerTable {
    /// No killers yet: every slot holds the null move.
    pub fn new() -> (t: Self)
        ensures
            forall|p: int, k: int| 0 <= p < 64 && 0 <= k < 2 ==> #[trigger] t.killers@[p]@[k] == Move(0),
    {
        let t = KillerTable { killers: [[Move(0); 2]; 64] };
        assert forall|p: int, k: int| 0 <= p < 64 && 0 <= k < 2 implies #[trigger] t.killers@[p]@[k] == Move(0) by {
        }
        t
    }

    /// Forgets every killer.
    pub fn clear(&mut self)
        ensures
            forall|p: int, k: int| 0 <= p < 64 && 0 <= k < 2 ==> #[trigger] final(self).killers@[p]@[k] == Move(0),
    {
        *self = Self::new();
    }

    /// `mv` is one of the killers of `ply`.
    pub fn is_killer(&self, ply: usize, mv: Move) -> (r: bool)
        ensures
            r == (ply < 64 && (self.killers@[ply as int]@[0].0 == mv.0 || self.killers@[ply as int]@[1].0 == mv.0)),
    {
        if ply >= MAX_PLY {
            return false;
        }
        self.killers[ply][0].0 == mv.0 || self.killers[ply][1].0 == mv.0
    }

    /// The ordering bonus of `mv` at `ply`: 8000 for the first killer, 7000 for
    /// the second, 0 otherwise.
    pub fn score_killer(&self, ply: usize, mv: Move) -> (r: i32)
        ensures
            r == if ply >= 64 {
                0i32
            } else if self.killers@[ply as int]@[0].0 == mv.0 {
                8000i32
            } else if self.killers@[ply as int]@[1].0 == mv.0 {
                7000i32
            } else {
                0i32
            },
    {
        if ply >= MAX_PLY {
            return 0;
        }
        if self.killers[ply][0].0 == mv.0 {
            8000
        } else if self.killers[ply][1].0 == mv.0 {
            7000
        } else {
            0
        }
    }

    /// Makes `mv` the first killer of `ply`, the old first killer becoming the
    /// second, unless `mv` is already first or `ply` is out of range.
    pub fn store(&mut self, ply: usize, mv: Move)
        ensures
            ply >= 64 || old(self).killers@[ply as int]@[0].0 == mv.0 ==> final(self).killers@
                == old(self).killers@,
            ply < 64 && old(self).killers@[ply as int]@[0].0 != mv.0 ==> final(self).killers@
                == old(self).killers@.update(
                ply as int,
                [mv, old(self).killers@[ply as int]@[0]],
            ),
    {
        if ply >= MAX_PLY {
            return;
        }
        if self.killers[ply][0].0 == mv.0 {
            return;
        }
        let first = self.killers[ply][0];
        self.killers[ply] = [mv, first];
    }
}

/// The largest magnitude a history score reaches.
pub const HISTORY_MAX: i32 = 16384;

/// Rust's `/` on integers: the quotient rounded toward zero.
pub open spec fn trunc_div(a: int, b: int) -> int {
    if a >= 0 {
        a / b
    } else {
        -((-a) / b)
    }
}

pub open spec fn abs(a: int) -> int {
    if a < 0 {
        -a
    } else {
        a
    }
}

/// `entry` moved by `bonus` with the gravity term `entry * |bonus| / 16384`
/// taken off, then clamped to `[-16384, 16384]`.
pub open spec fn history_after(entry: int, bonus: int) -> int {
    let v = entry + (bonus - trunc_div(entry * abs(bonus), 16384));
    if v > 16384 {
        16384
    } else if v < -16384 {
        -16384
    } else {
        v
    }
}

/// The update of `entry` by `bonus` stays within `i32` at every step.
pub open spec fn history_update_fits(entry: int, bonus: int) -> bool {
    &&& i32::MIN < bonus
    &&& i32::MIN <= entry * abs(bonus) <= i32::MAX
    &&& i32::MIN <= bonus - trunc_div(entry * abs(bonus), 16384) <= i32::MAX
    &&& i32::MIN <= entry + (bonus - trunc_div(entry * abs(bonus), 16384)) <= i32::MAX
}

/// History scores indexed by color, from-square and to-square.
#[derive(Clone)]
pub struct HistoryTable {
    pub table: [[[i32; 64]; 64]; 2],
}

impl HistoryTable {
    /// The score at `[c][f][t]`.
    pub open spec fn at(&self, c: int, f: int, t: int) -> i32 {
        self.table@[c]@[f]@[t]
    }

    /// Every score lies in `[-16384, 16384]`.
    pub open spec fn wf(&self) -> bool {
        forall|c: int, f: int, t: int|
            0 <= c < 2 && 0 <= f < 64 && 0 <= t < 64 ==> -16384 <= #[trigger] self.at(c, f, t) <= 16384
    }

    pub fn new() -> (h: Self)
        ensures
            h.wf(),
            forall|c: int, f: int, t: int| 0 <= c < 2 && 0 <= f < 64 && 0 <= t < 64 ==> #[trigger] h.at(c, f, t) == 0,
    {
        let h = HistoryTable { table: [[[0i32; 64]; 64]; 2] };
        assert forall|c: int, f: int, t: int| 0 <= c < 2 && 0 <= f < 64 && 0 <= t < 64 implies #[trigger] h.at(c, f, t) == 0 by {
        }
        h
    }

    /// Resets every score to 0.
    pub fn clear(&mut self)
        ensures
            final(self).wf(),
            forall|c: int, f: int, t: int| 0 <= c < 2 && 0 <= f < 64 && 0 <= t < 64 ==> #[trigger] final(self).at(c, f, t) == 0,
    {
        *self = Self::new();
    }

    pub fn get(&self, color: usize, from: u8, to: u8) -> (r: i32)
        requires
            color < 2,
            from < 64,
            to < 64,
        ensures
            r == self.at(color as int, from as int, to as int),
    {
        self.table[color][from as usize][to as usize]
    }

    /// The history score of `mv` for `color`: its cell scaled down by 32
    /// (rounding toward zero), to rank with killers and captures.
    pub fn score(&self, color: usize, mv: Move) -> (r: i32)
        requires
            color < 2,
        ensures
            r == trunc_div(self.at(color as int, move_from(mv) as int, move_to(mv) as int) as int, 32),
    {
        proof {
            lemma_move_bounds(mv);
        }
        let from = mv.from_sq();
        let to = mv.to_sq();
        self.table[color][from as usize][to as usize] / 32
    }

    /// Moves the score of `mv` for `color` by `bonus`, with gravity toward 0
    /// and clamping to `[-16384, 16384]`; nothing else changes.
    pub fn update(&mut self, color: usize, mv: Move, depth: i32, bonus: i32)
        requires
            color < 2,
            history_update_fits(
                old(self).at(color as int, move_from(mv) as int, move_to(mv) as int) as int,
                bonus as int,
            ),
        ensures
            forall|c: int, f: int, t: int|
                0 <= c < 2 && 0 <= f < 64 && 0 <= t < 64 ==> #[trigger] final(self).at(c, f, t) == if c
                    == color && f == move_from(mv) && t == move_to(mv) {
                    history_after(old(self).at(c, f, t) as int, bonus as int) as i32
                } else {
                    old(self).at(c, f, t)
                },
            old(self).wf() ==> final(self).wf(),
    {
        proof {
            lemma_move_bounds(mv);
        }
        let from = mv.from_sq() as usize;
        let to = mv.to_sq() as usize;
        let entry = self.table[color][from][to];
        let delta = bonus;
        let mag = if delta < 0 {
            -delta
        } else {
            delta
        };
        let prod = entry * mag;
        let q = prod / 16384;
        assert(q == trunc_div(prod as int, 16384));
        let mut v = entry + (delta - q);
        if v > HISTORY_MAX {
            v = HISTORY_MAX;
        } else if v < -HISTORY_MAX {
            v = -HISTORY_MAX;
        }
        let ghost before = *self;
        let mut row = self.table[color][from];
        row[to] = v;
        let mut plane = self.table[color];
        plane[from] = row;
        self.table[color] = plane;
        proof {
            if before.wf() {
                assert forall|c: int, f: int, t: int|
                    0 <= c < 2 && 0 <= f < 64 && 0 <= t < 64 implies -16384 <= #[trigger] self.at(
                    c,
                    f,
                    t,
                ) <= 16384 by {
                    assert(-16384 <= before.at(c, f, t) <= 16384);
                }
            }
        }
    }

    /// Rewards (`is_good`) or punishes a quiet move by `depth * depth`.
    pub fn update_quiet(&mut self, color: usize, mv: Move, depth: i32, is_good: bool)
        requires
            color < 2,
            i32::MIN <= depth * depth <= i32::MAX,
            history_update_fits(
                old(self).at(color as int, move_from(mv) as int, move_to(mv) as int) as int,
                if is_good { depth * depth } else { -(depth * depth) },
            ),
        ensures
            forall|c: int, f: int, t: int|
                0 <= c < 2 && 0 <= f < 64 && 0 <= t < 64 ==> #[trigger] final(self).at(c, f, t) == if c
                    == color && f == move_from(mv) && t == move_to(mv) {
                    history_after(
                        old(self).at(c, f, t) as int,
                        if is_good { depth * depth } else { -(depth * depth) },
                    ) as i32
                } else {
                    old(self).at(c, f, t)
                },
            old(self).wf() ==> final(self).wf(),
    {
        assert(-46341 < depth < 46341) by (nonlinear_arith)
            requires
                depth * depth <= i32::MAX,
        ;
        let neg = -depth;
        assert(neg * depth == -(depth * depth)) by (nonlinear_arith)
            requires
                neg == -depth,
        ;
        assert(0 <= depth * depth) by (nonlinear_arith);
        assert(i32::MIN <= neg * depth <= i32::MAX);
        let bonus = if is_good {
            depth * depth
        } else {
            neg * depth
        };
        self.update(color, mv, depth, bonus);
    }
}

/// With scores in range and a bonus of magnitude at most 131071, an update
/// stays within `i32`.
pub proof fn lemma_history_update_fits(entry: int, bonus: int)
    requires
        -16384 <= entry <= 16384,
        -131071 <= bonus <= 131071,
    ensures
        history_update_fits(entry, bonus),
{
    assert(-16384 * 131071 <= entry * abs(bonus) <= 16384 * 131071) by (nonlinear_arith)
        requires
            -16384 <= entry <= 16384,
            0 <= abs(bonus) <= 131071,
    ;
    assert(abs(trunc_div(entry * abs(bonus), 16384)) <= abs(bonus)) by (nonlinear_arith)
        requires
            -16384 <= entry <= 16384,
            0 <= abs(bonus) <= 131071,
            trunc_div(entry * abs(bonus), 16384) == if entry * abs(bonus) >= 0 {
                (entry * abs(bonus)) / 16384
            } else {
                -((-(entry * abs(bonus))) / 16384)
            },
    ;
}

} // verus!
