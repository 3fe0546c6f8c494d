//! The transposition table: search results remembered by Zobrist hash.
use vstd::prelude::*;
use crate::types::Move;

verus! {

/// The score is exact.
pub const TT_EXACT: u8 = 0;

/// The score is a lower bound (the search failed high).
pub const TT_LOWER: u8 = 1;

/// The score is an upper bound (the search failed low).
pub const TT_UPPER: u8 = 2;

/// One remembered search result.
#[derive(Clone, Copy, Debug)]
pub struct TTEntry {
    pub key: u64,
    pub best_move: Move,
    pub score: i32,
    pub depth: u8,
    pub flag: u8,
    pub age: u8,
}

/// The bytes one entry counts for when a table is sized: 16.
pub const TT_ENTRY_BYTES: usize = 16;

/// The empty entry: key 0, null move, score 0, depth 0, exact, age 0.
pub open spec fn empty_entry() -> TTEntry {
    TTEntry { key: 0, best_move: Move(0), score: 0, depth: 0, flag: TT_EXACT, age: 0 }
}

impl Default for TTEntry {
    fn default() -> (e: Self)
        ensures
            e == empty_entry(),
    {
        TTEntry { key: 0, best_move: Move(0), score: 0, depth: 0, flag: TT_EXACT, age: 0 }
    }
}

/// `2^k`.
pub open spec fn pow_two(k: nat) -> nat
    decreases k,
{
    if k == 0 {
        1
    } else {
        2 * pow_two((k - 1) as nat)
    }
}

/// The largest power of two that is at most `n` (for `n >= 1`).
pub open spec fn is_floor_pow2(p: nat, n: nat) -> bool {
    &&& exists|k: nat| p == #[trigger] pow_two(k)
    &&& p <= n < 2 * p
}

/// The number of entries a table of `mb` megabytes has.
pub open spec fn entries_for_mb(mb: nat) -> nat {
    let n = (mb * 1024 * 1024) / 16;
    if n < 1 {
        1
    } else {
        n
    }
}

/// Mate scores are stored relative to the node: `ply` further from the root.
pub open spec fn store_adjust(score: int, ply: int) -> int {
    if score > 29000 {
        score + ply
    } else if score < -29000 {
        score - ply
    } else {
        score
    }
}

/// Mate scores are read back relative to the root.
pub open spec fn retrieve_adjust(score: int, ply: int) -> int {
    if score > 29000 {
        score - ply
    } else if score < -29000 {
        score + ply
    } else {
        score
    }
}

/// The number of entries among the first `n` that are filled in the current age.
pub open spec fn used_count(entries: Seq<TTEntry>, age: u8, n: nat) -> nat
    decreases n,
{
    if n == 0 || n > entries.len() {
        0
    } else {
        used_count(entries, age, (n - 1) as nat) + if entries[n - 1].key != 0 && entries[n
            - 1].age == age {
            1nat
        } else {
            0nat
        }
    }
}

/// A table of entries indexed by the low bits of the hash.
pub struct TranspositionTable {
    pub entries: Vec<TTEntry>,
    pub mask: usize,
    pub age: u8,
    pub hits: u64,
    pub stores: u64,
}

/// The slot a hash maps to.
pub open spec fn slot_of(hash: u64, mask: usize) -> int {
    ((hash as usize) & mask) as int
}

/// The entry in the slot of `hash`, if it holds that (nonzero) key.
pub open spec fn probe_in(entries: Seq<TTEntry>, mask: usize, hash: u64) -> Option<TTEntry> {
    let e = entries[slot_of(hash, mask)];
    if e.key == hash && e.key != 0 {
        Some(e)
    } else {
        None
    }
}

/// The entry a store writes.
pub open spec fn stored_entry(
    hash: u64,
    best_move: Move,
    score: i32,
    depth: u8,
    flag: u8,
    ply: i32,
    age: u8,
) -> TTEntry {
    TTEntry {
        key: hash,
        best_move,
        score: store_adjust(score as int, ply as int) as i32,
        depth,
        flag,
        age,
    }
}

/// Whether a store of a result of `depth` and `flag` replaces `existing`.
pub open spec fn replaces(existing: TTEntry, age: u8, depth: u8, flag: u8) -> bool {
    existing.key == 0 || existing.age != age || depth >= existing.depth || flag == TT_EXACT
}

impl TranspositionTable {
    /// The mask selects a slot of the table.
    pub open spec fn wf(&self) -> bool {
        &&& self.entries@.len() == self.mask + 1
        &&& self.entries@.len() * 16 <= usize::MAX
    }

    /// What `probe` finds for `hash`.
    pub open spec fn spec_probe(&self, hash: u64) -> Option<TTEntry> {
        probe_in(self.entries@, self.mask, hash)
    }

    /// A table of `mb` megabytes: the largest power of two of 16-byte entries
    /// that fits (at least one), all empty, age and counters 0.
    pub fn new(mb: usize) -> (t: Self)
        requires
            mb * 1024 * 1024 <= usize::MAX,
        ensures
            t.wf(),
            is_floor_pow2(t.entries@.len() as nat, entries_for_mb(mb as nat)),
            forall|i: int| 0 <= i < t.entries@.len() ==> #[trigger] t.entries@[i] == empty_entry(),
            t.age == 0,
            t.hits == 0,
            t.stores == 0,
    {
        let bytes = mb * 1024 * 1024;
        let entry_size = TT_ENTRY_BYTES;
        let mut num_entries = bytes / entry_size;
        if num_entries < 1 {
            num_entries = 1;
        }
        let mut pow2: usize = 1;
        let ghost mut k: nat = 0;
        assert(pow2 == pow_two(k));
        while pow2 <= num_entries / 2
            invariant
                1 <= pow2 <= num_entries,
                num_entries == entries_for_mb(mb as nat),
                num_entries <= usize::MAX / 16,
                pow2 == pow_two(k),
            decreases num_entries - pow2,
        {
            pow2 = pow2 * 2;
            proof {
                k = k + 1;
            }
        }
        let entries = vec![TTEntry::default(); pow2];
        let mask = pow2 - 1;
        let t = TranspositionTable { entries, mask, age: 0, hits: 0, stores: 0 };
        assert(t.entries@.len() as nat == pow_two(k));
        t
    }

    /// A table of the default 16 megabytes.
    pub fn with_default() -> (t: Self)
        ensures
            t.wf(),
            is_floor_pow2(t.entries@.len() as nat, entries_for_mb(16)),
            forall|i: int| 0 <= i < t.entries@.len() ==> #[trigger] t.entries@[i] == empty_entry(),
            t.age == 0,
            t.hits == 0,
            t.stores == 0,
    {
        Self::new(16)
    }

    /// Replaces the table by a new empty one of `mb` megabytes.
    pub fn resize(&mut self, mb: usize)
        requires
            mb * 1024 * 1024 <= usize::MAX,
        ensures
            final(self).wf(),
            is_floor_pow2(final(self).entries@.len() as nat, entries_for_mb(mb as nat)),
            forall|i: int|
                0 <= i < final(self).entries@.len() ==> #[trigger] final(self).entries@[i]
                    == empty_entry(),
            final(self).age == 0,
            final(self).hits == 0,
            final(self).stores == 0,
    {
        *self = Self::new(mb);
    }

    /// Empties every entry, starts a new age and resets the counters.
    pub fn clear(&mut self)
        ensures
            final(self).entries@.len() == old(self).entries@.len(),
            forall|i: int|
                0 <= i < final(self).entries@.len() ==> #[trigger] final(self).entries@[i]
                    == empty_entry(),
            final(self).mask == old(self).mask,
            final(self).age == old(self).age.wrapping_add(1),
            final(self).hits == 0,
            final(self).stores == 0,
    {
        let n = self.entries.len();
        let mut i: usize = 0;
        while i < n
            invariant
                i <= n,
                n == self.entries@.len(),
                n == old(self).entries@.len(),
                self.mask == old(self).mask,
                self.age == old(self).age,
                forall|j: int| 0 <= j < i ==> #[trigger] self.entries@[j] == empty_entry(),
            decreases n - i,
        {
            self.entries.set(i, TTEntry::default());
            i += 1;
        }
        self.age = self.age.wrapping_add(1);
        self.hits = 0;
        self.stores = 0;
    }

    /// Starts a new search: the age moves on, entries stay.
    pub fn new_search(&mut self)
        ensures
            final(self).entries@ == old(self).entries@,
            final(self).mask == old(self).mask,
            final(self).age == old(self).age.wrapping_add(1),
            final(self).hits == old(self).hits,
            final(self).stores == old(self).stores,
    {
        self.age = self.age.wrapping_add(1);
    }

    fn index(&self, hash: u64) -> (i: usize)
        requires
            self.wf(),
        ensures
            i == slot_of(hash, self.mask),
            i < self.entries@.len(),
    {
        let m = self.mask;
        let h = hash as usize;
        assert(h & m <= m) by (bit_vector);
        h & m
    }

    /// The entry stored for `hash`, if its slot holds that (nonzero) key; a
    /// hit is counted (the counter wraps, as the release build's does).
    pub fn probe(&mut self, hash: u64) -> (r: Option<TTEntry>)
        requires
            old(self).wf(),
        ensures
            r == old(self).spec_probe(hash),
            final(self).entries@ == old(self).entries@,
            final(self).mask == old(self).mask,
            final(self).age == old(self).age,
            final(self).stores == old(self).stores,
            final(self).hits == if r is Some {
                old(self).hits.wrapping_add(1)
            } else {
                old(self).hits
            },
    {
        let idx = self.index(hash);
        let e = self.entries[idx];
        if e.key == hash && e.key != 0 {
            self.hits = self.hits.wrapping_add(1);
            Some(e)
        } else {
            None
        }
    }

    /// Stores a search result for `hash`, mate scores made relative to the
    /// node, when the replacement rule allows: the slot is empty, from an
    /// older search, of no greater depth, or the result is exact.
    pub fn store(&mut self, hash: u64, best_move: Move, score: i32, depth: u8, flag: u8, ply: i32)
        requires
            old(self).wf(),
            i32::MIN <= store_adjust(score as int, ply as int) <= i32::MAX,
        ensures
            final(self).wf(),
            final(self).mask == old(self).mask,
            final(self).age == old(self).age,
            final(self).hits == old(self).hits,
            ({
                let idx = slot_of(hash, old(self).mask);
                let stored = stored_entry(hash, best_move, score, depth, flag, ply, old(self).age);
                if replaces(old(self).entries@[idx], old(self).age, depth, flag) {
                    &&& final(self).entries@ == old(self).entries@.update(idx, stored)
                    &&& final(self).stores == old(self).stores.wrapping_add(1)
                } else {
                    &&& final(self).entries@ == old(self).entries@
                    &&& final(self).stores == old(self).stores
                }
            }),
            hash != 0 && replaces(
                old(self).entries@[slot_of(hash, old(self).mask)],
                old(self).age,
                depth,
                flag,
            ) ==> (final(self).spec_probe(hash) matches Some(e) && e.key == hash && e.best_move
                == best_move && e.depth == depth && e.flag == flag && e.age == old(self).age
                && (ply >= 0 ==> retrieve_adjust(e.score as int, ply as int) == score)),
    {
        proof {
            lemma_slot_in_table(hash, old(self).mask);
        }
        let idx = self.index(hash);
        let mut adjusted_score = score;
        if score > 29000 {
            adjusted_score = adjusted_score + ply;
        } else if score < -29000 {
            adjusted_score = adjusted_score - ply;
        }
        let existing = self.entries[idx];
        let should_replace = existing.key == 0 || existing.age != self.age || depth
            >= existing.depth || flag == TT_EXACT;
        if should_replace {
            self.entries.set(
                idx,
                TTEntry { key: hash, best_move, score: adjusted_score, depth, flag, age: self.age },
            );
            self.stores = self.stores.wrapping_add(1);
        }
    }

    /// The entry's score made relative to the root again, with its move, depth and flag.
    pub fn retrieve_with_correction(&self, entry: TTEntry, ply: i32) -> (r: (i32, Move, u8, u8))
        requires
            i32::MIN <= retrieve_adjust(entry.score as int, ply as int) <= i32::MAX,
        ensures
            r == (retrieve_adjust(entry.score as int, ply as int) as i32, entry.best_move, entry.depth, entry.flag),
    {
        let mut score = entry.score;
        if score > 29000 {
            score = score - ply;
        } else if score < -29000 {
            score = score + ply;
        }
        (score, entry.best_move, entry.depth, entry.flag)
    }

    /// Per mille of the entries filled in the current age.
    pub fn hashfull(&self) -> (r: u32)
        requires
            self.entries@.len() > 0,
            self.entries@.len() * 1000 <= usize::MAX,
        ensures
            r == used_count(self.entries@, self.age, self.entries@.len() as nat) * 1000
                / self.entries@.len() as nat,
            r <= 1000,
    {
        let n = self.entries.len();
        let mut used: usize = 0;
        let mut i: usize = 0;
        while i < n
            invariant
                i <= n,
                n == self.entries@.len(),
                used == used_count(self.entries@, self.age, i as nat),
                used <= i,
            decreases n - i,
        {
            let e = self.entries[i];
            if e.key != 0 && e.age == self.age {
                used += 1;
            }
            i += 1;
        }
        assert(used * 1000 <= n * 1000) by (nonlinear_arith)
            requires
                used <= n,
        ;
        assert(used * 1000 / (n as int) <= 1000) by (nonlinear_arith)
            requires
                used <= n,
                n > 0,
        ;
        ((used * 1000) / n) as u32
    }

    /// The table's size in whole megabytes.
    pub fn size_mb(&self) -> (r: usize)
        requires
            self.entries@.len() * 16 <= usize::MAX,
        ensures
            r == self.entries@.len() * 16 / (1024 * 1024),
    {
        self.entries.len() * TT_ENTRY_BYTES / (1024 * 1024)
    }
}

/// A mate score stored at some ply and read back at the same ply is the score stored.
pub proof fn lemma_mate_adjust_roundtrip(score: int, ply: int)
    requires
        ply >= 0,
    ensures
        retrieve_adjust(store_adjust(score, ply), ply) == score,
{
}

/// The slot a hash selects under a table mask lies within the table.
pub proof fn lemma_slot_in_table(hash: u64, mask: usize)
    ensures
        0 <= slot_of(hash, mask) <= mask,
{
    let h = hash as usize;
    assert(h & mask <= mask) by (bit_vector);
}

/// A store that replaces its slot keeps everything it was given: probing the
/// same nonzero hash finds an entry with that key, that best move (whatever
/// the flag), that depth, flag and age, and a score that reads back, at the
/// same ply, as the score stored.
pub proof fn lemma_store_keeps_fields(
    entries: Seq<TTEntry>,
    mask: usize,
    age: u8,
    hash: u64,
    best_move: Move,
    score: i32,
    depth: u8,
    flag: u8,
    ply: i32,
)
    requires
        entries.len() == mask + 1,
        hash != 0,
        replaces(entries[slot_of(hash, mask)], age, depth, flag),
        0 <= ply,
        i32::MIN <= store_adjust(score as int, ply as int) <= i32::MAX,
    ensures
        probe_in(
            entries.update(
                slot_of(hash, mask),
                stored_entry(hash, best_move, score, depth, flag, ply, age),
            ),
            mask,
            hash,
        ) matches Some(e) && e.key == hash && e.best_move == best_move && e.depth == depth
            && e.flag == flag && e.age == age && retrieve_adjust(e.score as int, ply as int)
            == score,
{
    lemma_slot_in_table(hash, mask);
}

/// After a store that replaces its slot, probing the same nonzero hash gives
/// back what was stored, its mate score relative to the node.
pub proof fn lemma_store_then_probe(
    entries: Seq<TTEntry>,
    mask: usize,
    age: u8,
    hash: u64,
    best_move: Move,
    score: i32,
    depth: u8,
    flag: u8,
    ply: i32,
)
    requires
        entries.len() == mask + 1,
        hash != 0,
        replaces(entries[slot_of(hash, mask)], age, depth, flag),
    ensures
        probe_in(
            entries.update(
                slot_of(hash, mask),
                stored_entry(hash, best_move, score, depth, flag, ply, age),
            ),
            mask,
            hash,
        ) == Some(stored_entry(hash, best_move, score, depth, flag, ply, age)),
{
    lemma_slot_in_table(hash, mask);
}

} // verus!
