//! Perft: counting the leaves of the legal move tree.
use vstd::prelude::*;
use crate::types::{Move, MoveList, spec_move_uci};
use crate::position::{Position, PosView, spec_make, lemma_unmake_undoes_make};
use crate::movegen::{generate_legal, legal_moves, legal_pred, pseudo_moves};
use crate::playable::{playable, lemma_legal_move_keeps_playable, lemma_pseudo_facts,
    lemma_facts_reversible};

verus! {

/// Sum of the perft counts at depth `d` of the positions after the first `n` moves of `ms`.
pub open spec fn perft_sum(v: PosView, ms: Seq<Move>, d: nat, n: nat) -> nat
    decreases 2 * d + 2, n,
{
    if n == 0 || n > ms.len() {
        0
    } else {
        perft_sum(v, ms, d, (n - 1) as nat) + spec_perft(spec_make(v, ms[n - 1]), d)
    }
}

/// Number of leaves of the legal move tree of depth `depth`.
pub open spec fn spec_perft(v: PosView, depth: nat) -> nat
    decreases 2 * depth + 1, 0nat,
{
    if depth == 0 {
        1
    } else if depth == 1 {
        legal_moves(v).len()
    } else {
        perft_sum(v, legal_moves(v), (depth - 1) as nat, legal_moves(v).len())
    }
}

proof fn lemma_perft_sum_mono(v: PosView, ms: Seq<Move>, d: nat, a: nat, b: nat)
    requires
        a <= b <= ms.len(),
    ensures
        perft_sum(v, ms, d, a) <= perft_sum(v, ms, d, b),
    decreases b,
{
    if b > a {
        lemma_perft_sum_mono(v, ms, d, a, (b - 1) as nat);
    }
}

/// A legal move of a playable position can be played and undone.
pub proof fn lemma_legal_playable_move(v: PosView, m: Move)
    requires
        playable(v),
        legal_moves(v).contains(m),
    ensures
        crate::position::move_reversible(v, m),
{
    broadcast use vstd::seq_lib::group_filter_ensures;

    pseudo_moves(v).lemma_filter_contains_rev(legal_pred(v), m);
    lemma_pseudo_facts(v, m);
    lemma_facts_reversible(v, m);
}

/// Counts the leaves of the legal move tree of the given depth. The position is
/// left as it was.
pub fn perft(pos: &mut Position, depth: u32) -> (nodes: u64)
    requires
        old(pos).wf(),
        playable(old(pos)@),
        old(pos)@.fullmove + depth <= 65535,
        spec_perft(old(pos)@, depth as nat) <= u64::MAX,
    ensures
        final(pos).wf(),
        final(pos)@ == old(pos)@,
        nodes == spec_perft(old(pos)@, depth as nat),
    decreases depth,
{
    let ghost v = pos@;
    if depth == 0 {
        return 1;
    }
    let mut list = MoveList::new();
    generate_legal(pos, &mut list);
    if depth == 1 {
        return list.len() as u64;
    }
    let mut nodes = 0u64;
    let n = list.len();
    let mut i: usize = 0;
    while i < n
        invariant
            pos.wf(),
            pos@ == v,
            playable(v),
            v.fullmove + depth <= 65535,
            depth >= 2,
            list@ == legal_moves(v),
            n == list@.len(),
            i <= n,
            nodes == perft_sum(v, list@, (depth - 1) as nat, i as nat),
            spec_perft(v, depth as nat) == perft_sum(v, list@, (depth - 1) as nat, n as nat),
            spec_perft(v, depth as nat) <= u64::MAX,
        decreases n - i,
    {
        let mv = list.get(i);
        proof {
            assert(list@.contains(mv)) by {
                assert(list@[i as int] == mv);
            }
            lemma_legal_playable_move(v, mv);
            lemma_legal_move_keeps_playable(v, mv);
            lemma_unmake_undoes_make(v, mv);
            lemma_perft_sum_mono(v, list@, (depth - 1) as nat, (i + 1) as nat, n as nat);
        }
        pos.make_move(mv);
        let sub = perft(pos, depth - 1);
        pos.unmake_move(mv);
        nodes = nodes + sub;
        i += 1;
    }
    nodes
}

/// The count that `perft_divide` reports below the move `m`.
pub open spec fn divide_count(v: PosView, depth: nat, m: Move) -> nat {
    if depth > 1 {
        spec_perft(spec_make(v, m), (depth - 1) as nat)
    } else {
        1
    }
}

/// The sum of the divide counts of the first `n` moves of `ms`.
pub open spec fn divide_total(v: PosView, ms: Seq<Move>, depth: nat, n: nat) -> nat
    decreases n,
{
    if n == 0 || n > ms.len() {
        0
    } else {
        divide_total(v, ms, depth, (n - 1) as nat) + divide_count(v, depth, ms[n - 1])
    }
}

proof fn lemma_divide_total_prefix(v: PosView, ms: Seq<Move>, depth: nat, n: nat)
    requires
        n <= ms.len(),
    ensures
        depth > 1 ==> divide_total(v, ms, depth, n) == perft_sum(v, ms, (depth - 1) as nat, n),
        depth <= 1 ==> divide_total(v, ms, depth, n) == n,
    decreases n,
{
    if n > 0 {
        lemma_divide_total_prefix(v, ms, depth, (n - 1) as nat);
    }
}

/// The counts `perft_divide` reports add up to the perft count of the same
/// depth, for every depth of at least one.
pub proof fn lemma_divide_sums_to_perft(v: PosView, depth: nat)
    requires
        depth >= 1,
    ensures
        divide_total(v, legal_moves(v), depth, legal_moves(v).len()) == spec_perft(v, depth),
{
    lemma_divide_total_prefix(v, legal_moves(v), depth, legal_moves(v).len());
}

/// For each legal move, its UCI text and the perft count below it (1 at depth 1
/// or less). The position is left as it was.
pub fn perft_divide(pos: &mut Position, depth: u32) -> (result: Vec<(String, u64)>)
    requires
        old(pos).wf(),
        playable(old(pos)@),
        old(pos)@.fullmove + depth <= 65535,
        spec_perft(old(pos)@, depth as nat) <= u64::MAX,
    ensures
        final(pos).wf(),
        final(pos)@ == old(pos)@,
        result@.len() == legal_moves(old(pos)@).len(),
        forall|i: int|
            #![trigger result@[i]]
            0 <= i < result@.len() ==> result@[i].0@ == spec_move_uci(legal_moves(old(pos)@)[i])
                && result@[i].1 == divide_count(old(pos)@, depth as nat, legal_moves(old(pos)@)[i]),
{
    let ghost v = pos@;
    let mut list = MoveList::new();
    generate_legal(pos, &mut list);
    let mut result: Vec<(String, u64)> = Vec::new();
    let n = list.len();
    let mut i: usize = 0;
    while i < n
        invariant
            pos.wf(),
            pos@ == v,
            playable(v),
            v.fullmove + depth <= 65535,
            list@ == legal_moves(v),
            n == list@.len(),
            i <= n,
            result@.len() == i,
            spec_perft(v, depth as nat) <= u64::MAX,
            depth > 1 ==> spec_perft(v, depth as nat) == perft_sum(v, list@, (depth - 1) as nat, n as nat),
            forall|j: int|
                #![trigger result@[j]]
                0 <= j < i ==> result@[j].0@ == spec_move_uci(list@[j]) && result@[j].1
                    == divide_count(v, depth as nat, list@[j]),
        decreases n - i,
    {
        let mv = list.get(i);
        proof {
            assert(list@.contains(mv)) by {
                assert(list@[i as int] == mv);
            }
            lemma_legal_playable_move(v, mv);
            lemma_unmake_undoes_make(v, mv);
            if depth > 1 {
                lemma_legal_move_keeps_playable(v, mv);
                lemma_perft_sum_mono(v, list@, (depth - 1) as nat, (i + 1) as nat, n as nat);
            }
        }
        pos.make_move(mv);
        let nodes = if depth > 1 {
            perft(pos, depth - 1)
        } else {
            1
        };
        pos.unmake_move(mv);
        let uci = mv.to_uci();
        let ghost old_result = result@;
        result.push((uci, nodes));
        proof {
            assert forall|j: int| #![trigger result@[j]] 0 <= j < i + 1 implies result@[j].0@
                == spec_move_uci(list@[j]) && result@[j].1 == divide_count(v, depth as nat, list@[j]) by {
                if j < i {
                    assert(result@[j] == old_result[j]);
                }
            }
        }
        i += 1;
    }
    result
}

/// The perft count of the given depth, or `None` when it does not fit in a
/// `u64`. The position is left as it was.
pub fn perft_checked(pos: &mut Position, depth: u32) -> (r: Option<u64>)
    requires
        old(pos).wf(),
        playable(old(pos)@),
        old(pos)@.fullmove + depth <= 65535,
    ensures
        final(pos).wf(),
        final(pos)@ == old(pos)@,
        r == if spec_perft(old(pos)@, depth as nat) <= u64::MAX {
            Some(spec_perft(old(pos)@, depth as nat) as u64)
        } else {
            None::<u64>
        },
    decreases depth,
{
    let ghost v = pos@;
    if depth == 0 {
        return Some(1);
    }
    let mut list = MoveList::new();
    generate_legal(pos, &mut list);
    if depth == 1 {
        return Some(list.len() as u64);
    }
    let mut nodes = 0u64;
    let n = list.len();
    let mut i: usize = 0;
    while i < n
        invariant
            pos.wf(),
            pos@ == v,
            playable(v),
            v.fullmove + depth <= 65535,
            depth >= 2,
            list@ == legal_moves(v),
            n == list@.len(),
            i <= n,
            v == old(pos)@,
            nodes == perft_sum(v, list@, (depth - 1) as nat, i as nat),
            spec_perft(v, depth as nat) == perft_sum(v, list@, (depth - 1) as nat, n as nat),
        decreases n - i,
    {
        let mv = list.get(i);
        proof {
            assert(list@.contains(mv)) by {
                assert(list@[i as int] == mv);
            }
            lemma_legal_playable_move(v, mv);
            lemma_legal_move_keeps_playable(v, mv);
            lemma_unmake_undoes_make(v, mv);
            lemma_perft_sum_mono(v, list@, (depth - 1) as nat, (i + 1) as nat, n as nat);
        }
        pos.make_move(mv);
        let sub = perft_checked(pos, depth - 1);
        pos.unmake_move(mv);
        match sub {
            None => {
                return None;
            },
            Some(x) => {
                match nodes.checked_add(x) {
                    None => {
                        return None;
                    },
                    Some(t) => {
                        nodes = t;
                    },
                }
            },
        }
        i += 1;
    }
    Some(nodes)
}

} // verus!
