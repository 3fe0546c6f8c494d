//! The board: pieces, bitboards, Zobrist hashing, make/unmake and draws.
use vstd::prelude::*;
use crate::bits::{bit, lemma_bit_or, lemma_bit_and, lemma_bit_not, lemma_bit_single, lemma_xor_self, lemma_xor_assoc_comm, lemma_xor4_toggle, lemma_u8_and_le, lemma_zero_no_bit};
use crate::types::{Color, PieceType, Move, Square, NO_PIECE, NO_SQUARE, CASTLE_WK, CASTLE_WQ, CASTLE_BK, CASTLE_BQ, pt_of_idx, piece_code, spec_piece_color, spec_opposite, file_of, rank_of, move_from, move_to, move_promo, make_piece, piece_type, square_file, lsb};

verus! {

pub const ZOBRIST_SEED: u64 = 0x123456789ABCDEF0;

pub const ZOBRIST_GAMMA: u64 = 0x9E3779B97F4A7C15;

/// The splitmix64 output function.
pub open spec fn spec_mix(z: u64) -> u64 {
    let z1 = (z ^ (z >> 30)).wrapping_mul(0xBF58476D1CE4E5B9);
    let z2 = (z1 ^ (z1 >> 27)).wrapping_mul(0x94D049BB133111EB);
    z2 ^ (z2 >> 31)
}

/// The splitmix64 state after `k` steps from the fixed seed.
pub open spec fn stream_state(k: nat) -> u64 {
    ((ZOBRIST_SEED as int + k * (ZOBRIST_GAMMA as int)) % 0x1_0000_0000_0000_0000) as u64
}

/// The `k`-th value (from 1) of the splitmix64 stream with the fixed seed.
#[verifier::opaque]
pub open spec fn spec_stream(k: nat) -> u64 {
    spec_mix(stream_state(k))
}

/// Key of piece code `p` on square `sq`: stream value `p * 64 + sq + 1`, with 0 replaced by 1.
pub open spec fn spec_piece_key(p: int, sq: int) -> u64 {
    let v = spec_stream((p * 64 + sq + 1) as nat);
    if v == 0 {
        1
    } else {
        v
    }
}

/// Key of black to move: stream value 769.
pub open spec fn spec_side_key() -> u64 {
    spec_stream(769)
}

/// Key of castling rights `c`: stream value `770 + c`.
pub open spec fn spec_castling_key(c: int) -> u64 {
    spec_stream((770 + c) as nat)
}

/// Key of an en passant file `f`: stream value `786 + f`.
pub open spec fn spec_ep_key(f: int) -> u64 {
    spec_stream((786 + f) as nat)
}

/// Zobrist keys as tables: piece keys indexed `piece * 64 + square`.
pub struct Zobrist {
    pub piece_keys: Vec<u64>,
    pub side_key: u64,
    pub castling_keys: Vec<u64>,
    pub en_passant_keys: Vec<u64>,
}

fn mix(z0: u64) -> (r: u64)
    ensures
        r == spec_mix(z0),
{
    let z = (z0 ^ (z0 >> 30)).wrapping_mul(0xBF58476D1CE4E5B9);
    let z = (z ^ (z >> 27)).wrapping_mul(0x94D049BB133111EB);
    z ^ (z >> 31)
}

/// Advances a splitmix64 state and returns the next value.
fn splitmix64(state: &mut u64) -> (r: u64)
    ensures
        *final(state) == old(state).wrapping_add(ZOBRIST_GAMMA),
        r == spec_mix(*final(state)),
{
    let z = state.wrapping_add(ZOBRIST_GAMMA);
    *state = z;
    mix(z)
}

proof fn lemma_stream_step(k: nat)
    ensures
        stream_state(k).wrapping_add(ZOBRIST_GAMMA) == stream_state(k + 1),
{
    let m: int = 0x1_0000_0000_0000_0000;
    let a: int = ZOBRIST_SEED as int + k * (ZOBRIST_GAMMA as int);
    vstd::arithmetic::div_mod::lemma_add_mod_noop(a, ZOBRIST_GAMMA as int, m);
    assert(ZOBRIST_SEED as int + (k + 1) * (ZOBRIST_GAMMA as int) == a + ZOBRIST_GAMMA as int)
        by (nonlinear_arith)
        requires
            a == ZOBRIST_SEED as int + k * (ZOBRIST_GAMMA as int),
    ;
    assert((ZOBRIST_GAMMA as int) % m == ZOBRIST_GAMMA as int);
    assert(0 <= a % m < m);
}

/// The `k`-th stream value, computed directly.
fn stream_value(k: u64) -> (r: u64)
    ensures
        r == spec_stream(k as nat),
{
    let st = ZOBRIST_SEED.wrapping_add(k.wrapping_mul(ZOBRIST_GAMMA));
    proof {
        let m: int = 0x1_0000_0000_0000_0000;
        vstd::arithmetic::div_mod::lemma_add_mod_noop_right(
            ZOBRIST_SEED as int,
            k * (ZOBRIST_GAMMA as int),
            m,
        );
        reveal(spec_stream);
    }
    mix(st)
}

pub fn piece_key(p: u8, sq: u8) -> (r: u64)
    requires
        p < 12,
        sq < 64,
    ensures
        r == spec_piece_key(p as int, sq as int),
{
    let v = stream_value((p as u64) * 64 + (sq as u64) + 1);
    if v == 0 {
        1
    } else {
        v
    }
}

pub fn side_key() -> (r: u64)
    ensures
        r == spec_side_key(),
{
    stream_value(769)
}

pub fn castling_key(c: u8) -> (r: u64)
    ensures
        r == spec_castling_key(c as int),
{
    stream_value(770 + c as u64)
}

pub fn ep_key(f: u8) -> (r: u64)
    ensures
        r == spec_ep_key(f as int),
{
    stream_value(786 + f as u64)
}

fn init_zobrist() -> (z: Zobrist)
    ensures
        z.piece_keys@.len() == 768,
        forall|p: int, sq: int|
            0 <= p < 12 && 0 <= sq < 64 ==> #[trigger] z.piece_keys@[p * 64 + sq]
                == spec_piece_key(p, sq),
        z.side_key == spec_side_key(),
        z.castling_keys@.len() == 16,
        forall|i: int| 0 <= i < 16 ==> #[trigger] z.castling_keys@[i] == spec_castling_key(i),
        z.en_passant_keys@.len() == 8,
        forall|i: int| 0 <= i < 8 ==> #[trigger] z.en_passant_keys@[i] == spec_ep_key(i),
{
    let mut seed: u64 = ZOBRIST_SEED;
    let mut piece_keys: Vec<u64> = Vec::new();
    let mut k: u64 = 0;
    assert(stream_state(0) == ZOBRIST_SEED);
    while k < 768
        invariant
            k <= 768,
            seed == stream_state(k as nat),
            piece_keys@.len() == k,
            forall|i: int| 0 <= i < k ==> #[trigger] piece_keys@[i] == spec_piece_key(i / 64, i % 64),
        decreases 768 - k,
    {
        proof {
            lemma_stream_step(k as nat);
            reveal(spec_stream);
        }
        let mut v = splitmix64(&mut seed);
        if v == 0 {
            v = 1;
        }
        piece_keys.push(v);
        k += 1;
    }
    assert forall|p: int, sq: int| 0 <= p < 12 && 0 <= sq < 64 implies #[trigger] piece_keys@[p
        * 64 + sq] == spec_piece_key(p, sq) by {
        assert((p * 64 + sq) / 64 == p && (p * 64 + sq) % 64 == sq) by (nonlinear_arith)
            requires
                0 <= sq < 64,
        ;
        assert(0 <= p * 64 + sq < 768) by (nonlinear_arith)
            requires
                0 <= p < 12,
                0 <= sq < 64,
        ;
    }
    proof {
        lemma_stream_step(768);
        reveal(spec_stream);
    }
    let side_key = splitmix64(&mut seed);
    let mut castling_keys: Vec<u64> = Vec::new();
    let mut i: u64 = 0;
    while i < 16
        invariant
            i <= 16,
            seed == stream_state((769 + i) as nat),
            castling_keys@.len() == i,
            forall|j: int| 0 <= j < i ==> #[trigger] castling_keys@[j] == spec_castling_key(j),
        decreases 16 - i,
    {
        proof {
            lemma_stream_step((769 + i) as nat);
            reveal(spec_stream);
        }
        castling_keys.push(splitmix64(&mut seed));
        i += 1;
    }
    let mut en_passant_keys: Vec<u64> = Vec::new();
    let mut i: u64 = 0;
    while i < 8
        invariant
            i <= 8,
            seed == stream_state((785 + i) as nat),
            en_passant_keys@.len() == i,
            forall|j: int| 0 <= j < i ==> #[trigger] en_passant_keys@[j] == spec_ep_key(j),
        decreases 8 - i,
    {
        proof {
            lemma_stream_step((785 + i) as nat);
            reveal(spec_stream);
        }
        en_passant_keys.push(splitmix64(&mut seed));
        i += 1;
    }
    Zobrist { piece_keys, side_key, castling_keys, en_passant_keys }
}

/// The Zobrist key tables.
pub fn zobrist() -> (z: Zobrist)
    ensures
        z.piece_keys@.len() == 768,
        forall|p: int, sq: int|
            0 <= p < 12 && 0 <= sq < 64 ==> #[trigger] z.piece_keys@[p * 64 + sq]
                == spec_piece_key(p, sq),
        z.side_key == spec_side_key(),
        z.castling_keys@.len() == 16,
        forall|i: int| 0 <= i < 16 ==> #[trigger] z.castling_keys@[i] == spec_castling_key(i),
        z.en_passant_keys@.len() == 8,
        forall|i: int| 0 <= i < 8 ==> #[trigger] z.en_passant_keys@[i] == spec_ep_key(i),
{
    init_zobrist()
}

/// What `make_move` saves to undo a move.
#[derive(Clone, Copy, Debug, PartialEq, Eq, Structural)]
pub struct State {
    pub castling: u8,
    pub en_passant: u8,
    pub halfmove: u8,
    pub captured: u8,
    pub hash: u64,
}

/// A chess position: mailbox board, bitboards indexed `color * 6 + piece type`,
/// occupancy, side to move, castling rights, en passant square (64 = none),
/// move counters, Zobrist hash and the undo history.
#[derive(Clone)]
pub struct Position {
    pub board: [u8; 64],
    pub bb: [u64; 12],
    pub occupied: [u64; 2],
    pub occupied_all: u64,
    pub side_to_move: Color,
    pub castling: u8,
    pub en_passant: u8,
    pub halfmove: u8,
    pub fullmove: u16,
    pub hash: u64,
    pub history: Vec<State>,
    pub hash_history: Vec<u64>,
}

/// The abstract position: everything but the bitboards, which the board determines.
pub ghost struct PosView {
    pub board: Seq<u8>,
    pub side: Color,
    pub castling: u8,
    pub en_passant: u8,
    pub halfmove: u8,
    pub fullmove: u16,
    pub hash: u64,
    pub history: Seq<State>,
    pub hash_history: Seq<u64>,
}

impl View for Position {
    type V = PosView;

    open spec fn view(&self) -> PosView {
        PosView {
            board: self.board@,
            side: self.side_to_move,
            castling: self.castling,
            en_passant: self.en_passant,
            halfmove: self.halfmove,
            fullmove: self.fullmove,
            hash: self.hash,
            history: self.history@,
            hash_history: self.hash_history@,
        }
    }
}

/// The key a square contributes to the hash: its piece's key, or 0 when empty.
pub open spec fn square_key(p: u8, sq: int) -> u64 {
    if p < 12 {
        spec_piece_key(p as int, sq)
    } else {
        0
    }
}

/// XOR of the keys of the pieces on squares `0..n`.
pub open spec fn board_hash(board: Seq<u8>, n: nat) -> u64
    decreases n,
{
    if n == 0 {
        0
    } else {
        board_hash(board, (n - 1) as nat) ^ square_key(board[n - 1], n - 1)
    }
}

pub open spec fn side_part(side: Color) -> u64 {
    if side == Color::Black {
        spec_side_key()
    } else {
        0
    }
}

pub open spec fn ep_part(ep: u8) -> u64 {
    if ep != 64 {
        spec_ep_key((ep % 8) as int)
    } else {
        0
    }
}

/// The Zobrist hash of a position: pieces, side to move, castling rights, en passant file.
pub open spec fn spec_hash(board: Seq<u8>, side: Color, castling: u8, ep: u8) -> u64 {
    ((board_hash(board, 64) ^ side_part(side)) ^ spec_castling_key(castling as int)) ^ ep_part(ep)
}

/// Every bitboard holds exactly the squares of its piece code.
pub open spec fn bb_ok(board: Seq<u8>, bb: Seq<u64>) -> bool {
    forall|p: int, i: u64| 0 <= p < 12 && i < 64 ==> #[trigger] bit(bb[p], i) == (board[i as int] == p)
}

/// The occupancy boards hold exactly the white, black and all occupied squares.
pub open spec fn occ_ok(board: Seq<u8>, occ: Seq<u64>, all: u64) -> bool {
    &&& forall|i: u64| i < 64 ==> #[trigger] bit(occ[0], i) == (board[i as int] < 6)
    &&& forall|i: u64| i < 64 ==> #[trigger] bit(occ[1], i) == (6 <= board[i as int] < 12)
    &&& forall|i: u64| i < 64 ==> #[trigger] bit(all, i) == (board[i as int] < 12)
}

/// Every square holds a piece code or is empty.
pub open spec fn board_codes_ok(board: Seq<u8>) -> bool {
    &&& board.len() == 64
    &&& forall|i: int| 0 <= i < 64 ==> #[trigger] board[i] <= 12
}

impl Position {
    /// Board, bitboards, hash and castling rights agree.
    pub open spec fn core_inv(&self) -> bool {
        &&& board_codes_ok(self.board@)
        &&& bb_ok(self.board@, self.bb@)
        &&& self.hash == spec_hash(self.board@, self.side_to_move, self.castling, self.en_passant)
        &&& self.castling <= 15
    }

    /// The position is internally consistent.
    pub open spec fn wf(&self) -> bool {
        &&& self.core_inv()
        &&& occ_ok(self.board@, self.occupied@, self.occupied_all)
    }

    /// Everything but the board, bitboards and hash is the same as in `o`.
    pub open spec fn rest_same(&self, o: Position) -> bool {
        &&& self.side_to_move == o.side_to_move
        &&& self.castling == o.castling
        &&& self.en_passant == o.en_passant
        &&& self.halfmove == o.halfmove
        &&& self.fullmove == o.fullmove
        &&& self.history@ == o.history@
        &&& self.hash_history@ == o.hash_history@
    }
}

/// Changing one square changes the board hash by the old and the new square key.
pub proof fn lemma_board_hash_update(b: Seq<u8>, s: int, x: u8, n: nat)
    requires
        0 <= s < b.len(),
        n <= b.len(),
    ensures
        board_hash(b.update(s, x), n) == board_hash(b, n) ^ (if s < n {
            square_key(b[s], s) ^ square_key(x, s)
        } else {
            0
        }),
    decreases n,
{
    let b2 = b.update(s, x);
    if n == 0 {
        lemma_xor_self(0);
    } else {
        let m = (n - 1) as nat;
        lemma_board_hash_update(b, s, x, m);
        let h = board_hash(b, m);
        let k1 = square_key(b[s], s);
        let k2 = square_key(x, s);
        if s < m {
            assert(b2[m as int] == b[m as int]);
            let q = square_key(b[m as int], m as int);
            lemma_xor_assoc_comm(h, k1 ^ k2, q);
            lemma_xor_assoc_comm(k1 ^ k2, h, q);
            lemma_xor_assoc_comm(h, q, k1 ^ k2);
            lemma_xor_assoc_comm(k1 ^ k2, h ^ q, 0);
        } else if s == m {
            assert(b2[m as int] == x);
            lemma_xor_self(h);
            lemma_xor_assoc_comm(h, k1, k2);
            assert(h == h ^ 0);
            lemma_xor_self(k1);
            lemma_xor_assoc_comm(h, k1, k1);
            lemma_xor_assoc_comm(h ^ k1, k1, k2);
            lemma_xor_assoc_comm(h, k1, k1 ^ k2);
            lemma_xor_assoc_comm(k1, k1, k2);
            lemma_xor_self(k2);
        } else {
            assert(b2[m as int] == b[m as int]);
            lemma_xor_self(h);
            lemma_xor_self(h ^ square_key(b[m as int], m as int));
        }
    }
}

impl Position {
    /// Empties square `sq`, which holds `p`; bitboards follow, hash untouched.
    fn clear_sq_raw(&mut self, sq: u8, p: u8)
        requires
            board_codes_ok(old(self).board@),
            bb_ok(old(self).board@, old(self).bb@),
            sq < 64,
            p < 12,
            old(self).board@[sq as int] == p,
        ensures
            board_codes_ok(final(self).board@),
            bb_ok(final(self).board@, final(self).bb@),
            final(self).board@ == old(self).board@.update(sq as int, 12),
            final(self).rest_same(*old(self)),
            final(self).hash == old(self).hash,
            final(self).occupied == old(self).occupied,
            final(self).occupied_all == old(self).occupied_all,
    {
        let ghost ob = self.board@;
        let ghost obb = self.bb@;
        self.board[sq as usize] = NO_PIECE;
        self.bb[p as usize] = self.bb[p as usize] & !(1u64 << sq);
        proof {
            assert forall|q: int, i: u64| 0 <= q < 12 && i < 64 implies #[trigger] bit(
                self.bb@[q],
                i,
            ) == (self.board@[i as int] == q) by {
                if q == p {
                    lemma_bit_and(obb[q], !(1u64 << sq), i);
                    lemma_bit_not(1u64 << sq, i);
                    lemma_bit_single(sq as u64, i);
                } else {
                    assert(self.bb@[q] == obb[q]);
                }
            }
        }
    }

    /// Puts `p` on the empty square `sq`; bitboards follow, hash untouched.
    fn set_sq_raw(&mut self, sq: u8, p: u8)
        requires
            board_codes_ok(old(self).board@),
            bb_ok(old(self).board@, old(self).bb@),
            sq < 64,
            p < 12,
            old(self).board@[sq as int] == 12,
        ensures
            board_codes_ok(final(self).board@),
            bb_ok(final(self).board@, final(self).bb@),
            final(self).board@ == old(self).board@.update(sq as int, p),
            final(self).rest_same(*old(self)),
            final(self).hash == old(self).hash,
            final(self).occupied == old(self).occupied,
            final(self).occupied_all == old(self).occupied_all,
    {
        let ghost ob = self.board@;
        let ghost obb = self.bb@;
        self.board[sq as usize] = p;
        self.bb[p as usize] = self.bb[p as usize] | (1u64 << sq);
        proof {
            assert forall|q: int, i: u64| 0 <= q < 12 && i < 64 implies #[trigger] bit(
                self.bb@[q],
                i,
            ) == (self.board@[i as int] == q) by {
                if q == p {
                    lemma_bit_or(obb[q], 1u64 << sq, i);
                    lemma_bit_single(sq as u64, i);
                } else {
                    assert(self.bb@[q] == obb[q]);
                }
            }
        }
    }

    /// Removes `p` from `sq`, keeping bitboards and hash consistent.
    fn remove_piece(&mut self, sq: u8, p: u8)
        requires
            old(self).core_inv(),
            sq < 64,
            p < 12,
            old(self).board@[sq as int] == p,
        ensures
            final(self).core_inv(),
            final(self).board@ == old(self).board@.update(sq as int, 12),
            final(self).rest_same(*old(self)),
            final(self).occupied == old(self).occupied,
            final(self).occupied_all == old(self).occupied_all,
    {
        let ghost ob = self.board@;
        let k = piece_key(p, sq);
        self.clear_sq_raw(sq, p);
        self.hash = self.hash ^ k;
        proof {
            lemma_board_hash_update(ob, sq as int, 12, 64);
            lemma_xor_self(k);
            lemma_xor4_toggle(
                board_hash(ob, 64),
                side_part(self.side_to_move),
                spec_castling_key(self.castling as int),
                ep_part(self.en_passant),
                k,
            );
        }
    }

    /// Puts `p` on the empty square `sq`, keeping bitboards and hash consistent.
    fn put_piece(&mut self, sq: u8, p: u8)
        requires
            old(self).core_inv(),
            sq < 64,
            p < 12,
            old(self).board@[sq as int] == 12,
        ensures
            final(self).core_inv(),
            final(self).board@ == old(self).board@.update(sq as int, p),
            final(self).rest_same(*old(self)),
            final(self).occupied == old(self).occupied,
            final(self).occupied_all == old(self).occupied_all,
    {
        let ghost ob = self.board@;
        let k = piece_key(p, sq);
        self.set_sq_raw(sq, p);
        self.hash = self.hash ^ k;
        proof {
            lemma_board_hash_update(ob, sq as int, p, 64);
            lemma_xor_self(k);
            lemma_xor4_toggle(
                board_hash(ob, 64),
                side_part(self.side_to_move),
                spec_castling_key(self.castling as int),
                ep_part(self.en_passant),
                k,
            );
        }
    }

    /// Replaces the castling rights, keeping the hash consistent.
    fn set_castling(&mut self, c: u8)
        requires
            old(self).core_inv(),
            c <= 15,
        ensures
            final(self).core_inv(),
            final(self).castling == c,
            final(self).board@ == old(self).board@,
            final(self).side_to_move == old(self).side_to_move,
            final(self).en_passant == old(self).en_passant,
            final(self).halfmove == old(self).halfmove,
            final(self).fullmove == old(self).fullmove,
            final(self).history@ == old(self).history@,
            final(self).hash_history@ == old(self).hash_history@,
            final(self).occupied == old(self).occupied,
            final(self).occupied_all == old(self).occupied_all,
    {
        let k = castling_key(self.castling) ^ castling_key(c);
        proof {
            let a = board_hash(self.board@, 64);
            let b = side_part(self.side_to_move);
            let c0 = spec_castling_key(self.castling as int);
            let d = ep_part(self.en_passant);
            lemma_xor4_toggle(a, b, c0, d, k);
            lemma_xor_assoc_comm(c0, c0, spec_castling_key(c as int));
            lemma_xor_self(c0);
            lemma_xor_self(spec_castling_key(c as int));
        }
        self.hash = self.hash ^ k;
        self.castling = c;
    }

    /// Replaces the en passant square, keeping the hash consistent.
    fn set_en_passant(&mut self, e: u8)
        requires
            old(self).core_inv(),
        ensures
            final(self).core_inv(),
            final(self).en_passant == e,
            final(self).board@ == old(self).board@,
            final(self).side_to_move == old(self).side_to_move,
            final(self).castling == old(self).castling,
            final(self).halfmove == old(self).halfmove,
            final(self).fullmove == old(self).fullmove,
            final(self).history@ == old(self).history@,
            final(self).hash_history@ == old(self).hash_history@,
            final(self).occupied == old(self).occupied,
            final(self).occupied_all == old(self).occupied_all,
    {
        let old_part = if self.en_passant != NO_SQUARE {
            ep_key(square_file(self.en_passant))
        } else {
            0
        };
        let new_part = if e != NO_SQUARE {
            ep_key(square_file(e))
        } else {
            0
        };
        let k = old_part ^ new_part;
        proof {
            let a = board_hash(self.board@, 64);
            let b = side_part(self.side_to_move);
            let c = spec_castling_key(self.castling as int);
            let d = ep_part(self.en_passant);
            lemma_xor4_toggle(a, b, c, d, k);
            lemma_xor_assoc_comm(d, d, new_part);
            lemma_xor_self(d);
            lemma_xor_self(new_part);
        }
        self.hash = self.hash ^ k;
        self.en_passant = e;
    }

    /// Gives the move to color `c`, keeping the hash consistent.
    fn set_side(&mut self, c: Color)
        requires
            old(self).core_inv(),
            c == spec_opposite(old(self).side_to_move),
        ensures
            final(self).core_inv(),
            final(self).side_to_move == c,
            final(self).board@ == old(self).board@,
            final(self).castling == old(self).castling,
            final(self).en_passant == old(self).en_passant,
            final(self).halfmove == old(self).halfmove,
            final(self).fullmove == old(self).fullmove,
            final(self).history@ == old(self).history@,
            final(self).hash_history@ == old(self).hash_history@,
            final(self).occupied == old(self).occupied,
            final(self).occupied_all == old(self).occupied_all,
    {
        let k = side_key();
        proof {
            let a = board_hash(self.board@, 64);
            let b = side_part(self.side_to_move);
            let cc = spec_castling_key(self.castling as int);
            let d = ep_part(self.en_passant);
            lemma_xor4_toggle(a, b, cc, d, k);
            lemma_xor_self(k);
        }
        self.hash = self.hash ^ k;
        self.side_to_move = c;
    }

    /// Recomputes the occupancy boards from the piece bitboards.
    fn recompute_occupied(&mut self)
        requires
            board_codes_ok(old(self).board@),
            bb_ok(old(self).board@, old(self).bb@),
        ensures
            occ_ok(final(self).board@, final(self).occupied@, final(self).occupied_all),
            final(self).board@ == old(self).board@,
            final(self).bb@ == old(self).bb@,
            final(self).rest_same(*old(self)),
            final(self).hash == old(self).hash,
    {
        let mut c: usize = 0;
        while c < 2
            invariant
                c <= 2,
                board_codes_ok(self.board@),
                bb_ok(self.board@, self.bb@),
                self.board@ == old(self).board@,
                self.bb@ == old(self).bb@,
                self.rest_same(*old(self)),
                self.hash == old(self).hash,
                forall|cc: int, i: u64|
                    0 <= cc < c && i < 64 ==> #[trigger] bit(self.occupied@[cc], i) == (cc * 6
                        <= self.board@[i as int] < cc * 6 + 6),
            decreases 2 - c,
        {
            let mut occ = 0u64;
            let mut pt: usize = 0;
            proof {
                assert forall|i: u64| i < 64 implies !#[trigger] bit(occ, i) by {
                    lemma_zero_no_bit(i);
                }
            }
            while pt < 6
                invariant
                    pt <= 6,
                    c < 2,
                    board_codes_ok(self.board@),
                    bb_ok(self.board@, self.bb@),
                    forall|i: u64|
                        i < 64 ==> #[trigger] bit(occ, i) == ((c * 6) as int <= self.board@[i as int]
                            < (c * 6 + pt) as int),
                decreases 6 - pt,
            {
                proof {
                    assert forall|i: u64| i < 64 implies #[trigger] bit(
                        occ | self.bb@[(c * 6 + pt) as int],
                        i,
                    ) == ((c * 6) as int <= self.board@[i as int] < (c * 6 + pt + 1) as int) by {
                        lemma_bit_or(occ, self.bb@[(c * 6 + pt) as int], i);
                    }
                }
                occ = occ | self.bb[c * 6 + pt];
                pt += 1;
            }
            self.occupied[c] = occ;
            c += 1;
        }
        proof {
            assert forall|i: u64| i < 64 implies #[trigger] bit(
                self.occupied@[0] | self.occupied@[1],
                i,
            ) == (self.board@[i as int] < 12) by {
                lemma_bit_or(self.occupied@[0], self.occupied@[1], i);
            }
        }
        self.occupied_all = self.occupied[0] | self.occupied[1];
    }
}

/// Where a pawn of color `us` landing on `to` captures en passant.
pub open spec fn ep_capture_square(us: Color, to: int) -> int {
    if us == Color::White {
        to - 8
    } else {
        to + 8
    }
}

/// The rook's from and to squares for a king move of `us` to `to`, if it is one of
/// the four castling destinations.
pub open spec fn castle_rook_squares(us: Color, to: int) -> Option<(int, int)> {
    if us == Color::White && to == 6 {
        Some((7, 5))
    } else if us == Color::White && to == 2 {
        Some((0, 3))
    } else if us == Color::Black && to == 62 {
        Some((63, 61))
    } else if us == Color::Black && to == 58 {
        Some((56, 59))
    } else {
        None
    }
}

pub open spec fn abs_diff(a: int, b: int) -> int {
    if a >= b {
        a - b
    } else {
        b - a
    }
}

/// A king move across two files: a castling move.
pub open spec fn is_castle_shape(pt: PieceType, from: int, to: int) -> bool {
    pt == PieceType::King && abs_diff(file_of(from), file_of(to)) == 2
}

pub open spec fn mv_from(mv: Move) -> int {
    move_from(mv) as int
}

pub open spec fn mv_to(mv: Move) -> int {
    move_to(mv) as int
}

/// Type of the piece that moves.
pub open spec fn moving_type(v: PosView, mv: Move) -> PieceType {
    pt_of_idx(v.board[mv_from(mv)] as int)
}

/// The piece a move captures (12 when none): the piece on the destination, or
/// the pawn passed by an en passant capture.
pub open spec fn spec_captured(v: PosView, mv: Move) -> u8 {
    let to = mv_to(mv);
    if v.board[to] != 12 {
        v.board[to]
    } else if moving_type(v, mv) == PieceType::Pawn && to == v.en_passant {
        v.board[ep_capture_square(v.side, to)]
    } else {
        12
    }
}

/// The square a move captures on.
pub open spec fn spec_capture_square(v: PosView, mv: Move) -> int {
    let to = mv_to(mv);
    if moving_type(v, mv) == PieceType::Pawn && to == v.en_passant && v.board[to] == 12 {
        ep_capture_square(v.side, to)
    } else {
        to
    }
}

/// Castling rights left after a rook or the king leaves, or a rook is taken, on `sq`.
pub open spec fn rights_after_square(c: u8, sq: int) -> u8 {
    if sq == 0 {
        c & 0xFD
    } else if sq == 7 {
        c & 0xFE
    } else if sq == 56 {
        c & 0xF7
    } else if sq == 63 {
        c & 0xFB
    } else {
        c
    }
}

/// Castling rights after a move.
pub open spec fn spec_castling_after(v: PosView, mv: Move) -> u8 {
    castling_after_values(
        v.castling,
        v.side,
        moving_type(v, mv),
        mv_from(mv),
        mv_to(mv),
        spec_captured(v, mv) != 12,
        v.en_passant,
    )
}

/// En passant square after a move: the square a pawn double step passed, else none.
pub open spec fn spec_ep_after(v: PosView, mv: Move) -> u8 {
    ep_after_values(v.side, moving_type(v, mv) == PieceType::Pawn, mv_from(mv), mv_to(mv))
}

/// The board after a move.
pub open spec fn spec_board_after(v: PosView, mv: Move) -> Seq<u8> {
    let from = mv_from(mv);
    let to = mv_to(mv);
    let us = v.side;
    let piece = v.board[from];
    let pt = moving_type(v, mv);
    let b1 = v.board.update(from, 12);
    let b2 = if spec_captured(v, mv) != 12 {
        b1.update(spec_capture_square(v, mv), 12)
    } else {
        b1
    };
    let b3 = if is_castle_shape(pt, from, to) {
        match castle_rook_squares(us, to) {
            Some((rf, rt)) => b2.update(rf, 12).update(rt, piece_code(us, PieceType::Rook) as u8),
            None => b2,
        }
    } else {
        b2
    };
    let placed = match move_promo(mv) {
        Some(p) => piece_code(us, p) as u8,
        None => piece,
    };
    b3.update(to, placed)
}

/// The position after a move, as `make_move` leaves it.
pub open spec fn spec_make(v: PosView, mv: Move) -> PosView {
    let us = v.side;
    let them = spec_opposite(us);
    let captured = spec_captured(v, mv);
    let state = State {
        castling: v.castling,
        en_passant: v.en_passant,
        halfmove: v.halfmove,
        captured: captured,
        hash: v.hash,
    };
    let board = spec_board_after(v, mv);
    let castling = spec_castling_after(v, mv);
    let ep = spec_ep_after(v, mv);
    let hash = spec_hash(board, them, castling, ep);
    PosView {
        board: board,
        side: them,
        castling: castling,
        en_passant: ep,
        halfmove: if moving_type(v, mv) == PieceType::Pawn || captured != 12 {
            0
        } else {
            v.halfmove.wrapping_add(1)
        },
        fullmove: if us == Color::Black {
            (v.fullmove + 1) as u16
        } else {
            v.fullmove
        },
        hash: hash,
        history: v.history.push(state),
        hash_history: v.hash_history.push(hash),
    }
}

/// A move `make_move` can play on `v` without failing and keep consistent: a piece
/// of the side to move leaves another square; an en passant capture takes on a
/// square of the board other than the origin; a castling king goes to a castling
/// destination with its rook in the corner and the rook's square free; a black
/// double step starts above the first rank; and the move counter does not overflow.
pub open spec fn move_ok(v: PosView, mv: Move) -> bool {
    let from = mv_from(mv);
    let to = mv_to(mv);
    let piece = v.board[from];
    let pt = moving_type(v, mv);
    &&& from != to
    &&& piece < 12
    &&& spec_piece_color(piece as int) == v.side
    &&& (v.side == Color::Black ==> v.fullmove < 65535)
    &&& (pt == PieceType::Pawn && to == v.en_passant) ==> 0 <= ep_capture_square(v.side, to) < 64
    &&& (pt == PieceType::Pawn && to == v.en_passant && v.board[to] == 12) ==> ep_capture_square(
        v.side,
        to,
    ) != from
    &&& is_castle_shape(pt, from, to) ==> match castle_rook_squares(v.side, to) {
        Some((rf, rt)) => v.board[rf] == piece_code(v.side, PieceType::Rook) && v.board[rt] == 12,
        None => false,
    }
    &&& (pt == PieceType::Pawn && abs_diff(to, from) == 16 && v.side == Color::Black) ==> from >= 8
}

impl Position {
    pub fn piece_at(&self, sq: Square) -> (p: u8)
        requires
            sq < 64,
        ensures
            p == self.board@[sq as int],
    {
        self.board[sq as usize]
    }

    pub fn is_empty(&self, sq: Square) -> (r: bool)
        requires
            sq < 64,
        ensures
            r == (self.board@[sq as int] == 12),
    {
        self.board[sq as usize] == NO_PIECE
    }

    /// Moves the pieces of a move on the board: lifts the mover, removes the
    /// captured piece, moves the castling rook, drops the (promoted) mover.
    fn move_pieces(
        &mut self,
        mv: Move,
        from: u8,
        to: u8,
        piece: u8,
        pt: PieceType,
        captured: u8,
        ep: u8,
        Ghost(v): Ghost<PosView>,
    )
        requires
            old(self).core_inv(),
            old(self).board@ == v.board,
            old(self).side_to_move == v.side,
            move_ok(v, mv),
            from == mv_from(mv),
            to == mv_to(mv),
            from < 64,
            to < 64,
            piece == v.board[from as int],
            pt == moving_type(v, mv),
            captured == spec_captured(v, mv),
            ep == v.en_passant,
        ensures
            final(self).core_inv(),
            final(self).board@ == spec_board_after(v, mv),
            final(self).rest_same(*old(self)),
            final(self).occupied == old(self).occupied,
            final(self).occupied_all == old(self).occupied_all,
    {
        let us = self.side_to_move;
        let promo = mv.promotion();
        // lift the mover
        self.remove_piece(from, piece);
        // remove the captured piece
        if captured != NO_PIECE {
            let cap_sq = if pt == PieceType::Pawn && to == ep && self.board[to as usize]
                == NO_PIECE {
                if us == Color::White {
                    to - 8
                } else {
                    to + 8
                }
            } else {
                to
            };
            assert(cap_sq == spec_capture_square(v, mv));
            self.remove_piece(cap_sq, captured);
        }
        // castling moves the rook too
        let ff = square_file(from);
        let tf = square_file(to);
        let fdiff = if ff > tf {
            ff - tf
        } else {
            tf - ff
        };
        if pt == PieceType::King && fdiff == 2 {
            let rook_from: u8;
            let rook_to: u8;
            if us == Color::White && to == 6 {
                rook_from = 7;
                rook_to = 5;
            } else if us == Color::White && to == 2 {
                rook_from = 0;
                rook_to = 3;
            } else if us == Color::Black && to == 62 {
                rook_from = 63;
                rook_to = 61;
            } else {
                rook_from = 56;
                rook_to = 59;
            }
            let rook = make_piece(us, PieceType::Rook);
            self.remove_piece(rook_from, rook);
            self.put_piece(rook_to, rook);
        }
        // drop the mover, promoted if need be
        let placed_piece = match promo {
            Some(promo_pt) => make_piece(us, promo_pt),
            None => piece,
        };
        self.put_piece(to, placed_piece);
        assert(self.board@ =~= spec_board_after(v, mv));
    }

    /// Plays a move, updating board, bitboards, hash, rights, counters and history.
    pub fn make_move(&mut self, mv: Move)
        requires
            old(self).wf(),
            move_ok(old(self)@, mv),
        ensures
            final(self).wf(),
            final(self)@ == spec_make(old(self)@, mv),
    {
        let ghost v = self@;
        let from = mv.from_sq();
        let to = mv.to_sq();
        let us = self.side_to_move;
        let them = us.opposite();
        let piece = self.board[from as usize];
        let pt = piece_type(piece);
        let captured = if self.board[to as usize] != NO_PIECE {
            self.board[to as usize]
        } else if pt == PieceType::Pawn && to == self.en_passant {
            let cap_sq = if us == Color::White {
                to - 8
            } else {
                to + 8
            };
            self.board[cap_sq as usize]
        } else {
            NO_PIECE
        };
        let is_capture = captured != NO_PIECE;
        let is_pawn_move = pt == PieceType::Pawn;
        let state = State {
            castling: self.castling,
            en_passant: self.en_passant,
            halfmove: self.halfmove,
            captured,
            hash: self.hash,
        };
        self.history.push(state);
        self.move_pieces(mv, from, to, piece, pt, captured, state.en_passant, Ghost(v));
        let new_castling = castling_after(
            state.castling,
            us,
            pt,
            from,
            to,
            is_capture,
            state.en_passant,
        );
        proof {
            lemma_castling_after_le(v, mv);
        }
        self.set_castling(new_castling);
        let new_ep = ep_after(us, is_pawn_move, from, to);
        self.set_en_passant(new_ep);
        if is_pawn_move || is_capture {
            self.halfmove = 0;
        } else {
            self.halfmove = self.halfmove.wrapping_add(1);
        }
        if us == Color::Black {
            self.fullmove = self.fullmove + 1;
        }
        self.set_side(them);
        self.recompute_occupied();
        self.hash_history.push(self.hash);
    }
}

/// Castling rights after a move of a `pt` of color `us` from `from` to `to`.
pub open spec fn castling_after_values(
    c: u8,
    us: Color,
    pt: PieceType,
    from: int,
    to: int,
    is_capture: bool,
    ep: u8,
) -> u8 {
    let c1 = if pt == PieceType::King {
        if us == Color::White {
            c & 0xFC
        } else {
            c & 0xF3
        }
    } else {
        c
    };
    let c2 = rights_after_square(c1, from);
    let cap_sq = if pt == PieceType::Pawn && to == ep {
        ep_capture_square(us, to)
    } else {
        to
    };
    if is_capture {
        rights_after_square(c2, cap_sq)
    } else {
        c2
    }
}

fn castling_after(
    castling: u8,
    us: Color,
    pt: PieceType,
    from: u8,
    to: u8,
    is_capture: bool,
    ep: u8,
) -> (r: u8)
    requires
        (is_capture && pt == PieceType::Pawn && to == ep) ==> 0 <= ep_capture_square(us, to as int)
            < 64,
    ensures
        r == castling_after_values(castling, us, pt, from as int, to as int, is_capture, ep),
{
    proof {
        lemma_castle_masks();
    }
    let mut new_castling = castling;
    if pt == PieceType::King {
        if us == Color::White {
            new_castling = new_castling & !(CASTLE_WK | CASTLE_WQ);
        } else {
            new_castling = new_castling & !(CASTLE_BK | CASTLE_BQ);
        }
    }
    if from == 0 {
        new_castling = new_castling & !CASTLE_WQ;
    } else if from == 7 {
        new_castling = new_castling & !CASTLE_WK;
    } else if from == 56 {
        new_castling = new_castling & !CASTLE_BQ;
    } else if from == 63 {
        new_castling = new_castling & !CASTLE_BK;
    }
    let cap_sq_for_castle = if is_capture && pt == PieceType::Pawn && to == ep {
        if us == Color::White {
            to - 8
        } else {
            to + 8
        }
    } else {
        to
    };
    if is_capture {
        if cap_sq_for_castle == 0 {
            new_castling = new_castling & !CASTLE_WQ;
        } else if cap_sq_for_castle == 7 {
            new_castling = new_castling & !CASTLE_WK;
        } else if cap_sq_for_castle == 56 {
            new_castling = new_castling & !CASTLE_BQ;
        } else if cap_sq_for_castle == 63 {
            new_castling = new_castling & !CASTLE_BK;
        }
    }
    new_castling
}

/// En passant square after a move of color `us`.
pub open spec fn ep_after_values(us: Color, is_pawn: bool, from: int, to: int) -> u8 {
    if is_pawn && abs_diff(to, from) == 16 {
        if us == Color::White {
            (from + 8) as u8
        } else {
            (from - 8) as u8
        }
    } else {
        64
    }
}

fn ep_after(us: Color, is_pawn: bool, from: u8, to: u8) -> (r: u8)
    requires
        from < 64,
        to < 64,
        (is_pawn && abs_diff(to as int, from as int) == 16 && us == Color::Black) ==> from >= 8,
    ensures
        r == ep_after_values(us, is_pawn, from as int, to as int),
{
    let step = if to > from {
        to - from
    } else {
        from - to
    };
    if is_pawn && step == 16 {
        if us == Color::White {
            from + 8
        } else {
            from - 8
        }
    } else {
        NO_SQUARE
    }
}

proof fn lemma_castle_masks()
    ensures
        !(CASTLE_WK | CASTLE_WQ) == 0xFCu8,
        !(CASTLE_BK | CASTLE_BQ) == 0xF3u8,
        !CASTLE_WQ == 0xFDu8,
        !CASTLE_WK == 0xFEu8,
        !CASTLE_BQ == 0xF7u8,
        !CASTLE_BK == 0xFBu8,
{
    assert(!(1u8 | 2u8) == 0xFCu8 && !(4u8 | 8u8) == 0xF3u8 && !2u8 == 0xFDu8 && !1u8 == 0xFEu8
        && !8u8 == 0xF7u8 && !4u8 == 0xFBu8) by (bit_vector);
}

pub proof fn lemma_castling_after_le(v: PosView, mv: Move)
    requires
        v.castling <= 15,
    ensures
        spec_castling_after(v, mv) <= 15,
{
    let c = v.castling;
    lemma_u8_and_le(c, 0xFC);
    lemma_u8_and_le(c, 0xF3);
    let pt = moving_type(v, mv);
    let c1 = if pt == PieceType::King {
        if v.side == Color::White {
            c & 0xFC
        } else {
            c & 0xF3
        }
    } else {
        c
    };
    lemma_u8_and_le(c1, 0xFD);
    lemma_u8_and_le(c1, 0xFE);
    lemma_u8_and_le(c1, 0xF7);
    lemma_u8_and_le(c1, 0xFB);
    let c2 = rights_after_square(c1, mv_from(mv));
    assert(c2 <= 15);
    lemma_u8_and_le(c2, 0xFD);
    lemma_u8_and_le(c2, 0xFE);
    lemma_u8_and_le(c2, 0xF7);
    lemma_u8_and_le(c2, 0xFB);
}

/// The square `unmake_move` puts a captured piece back on.
pub open spec fn unmake_capture_square(us: Color, mv: Move, original: u8, ep: u8) -> int {
    let to = mv_to(mv);
    if move_promo(mv) is Some {
        to
    } else if pt_of_idx(original as int) == PieceType::Pawn && to == ep {
        ep_capture_square(us, to)
    } else {
        to
    }
}

/// The piece `unmake_move` puts back on the origin square.
pub open spec fn unmake_original(v: PosView, mv: Move) -> u8 {
    let us = spec_opposite(v.side);
    if move_promo(mv) is Some {
        piece_code(us, PieceType::Pawn) as u8
    } else {
        v.board[mv_to(mv)]
    }
}

/// A move that `unmake_move` sees as a castling move.
pub open spec fn unmake_is_castle(v: PosView, mv: Move) -> bool {
    move_promo(mv) is None && is_castle_shape(pt_of_idx(v.board[mv_to(mv)] as int), mv_from(mv), mv_to(mv))
}

/// Board after undoing the rook of a castling move and lifting the piece on the destination.
pub open spec fn unmake_board_lifted(v: PosView, mv: Move) -> Seq<u8> {
    let us = spec_opposite(v.side);
    let to = mv_to(mv);
    let b1 = if unmake_is_castle(v, mv) {
        match castle_rook_squares(us, to) {
            Some((rf, rt)) => v.board.update(rt, 12).update(rf, piece_code(us, PieceType::Rook) as u8),
            None => v.board,
        }
    } else {
        v.board
    };
    b1.update(to, 12)
}

/// Board after `unmake_move`.
pub open spec fn spec_unmake_board(v: PosView, mv: Move) -> Seq<u8> {
    let us = spec_opposite(v.side);
    let state = v.history.last();
    let original = unmake_original(v, mv);
    let b3 = unmake_board_lifted(v, mv).update(mv_from(mv), original);
    if state.captured != 12 {
        b3.update(unmake_capture_square(us, mv, original, state.en_passant), state.captured)
    } else {
        b3
    }
}

/// The position `unmake_move` leaves: the move taken back with the last saved state.
pub open spec fn spec_unmake(v: PosView, mv: Move) -> PosView {
    let us = spec_opposite(v.side);
    let state = v.history.last();
    PosView {
        board: spec_unmake_board(v, mv),
        side: us,
        castling: state.castling,
        en_passant: state.en_passant,
        halfmove: state.halfmove,
        fullmove: if us == Color::Black {
            (v.fullmove - 1) as u16
        } else {
            v.fullmove
        },
        hash: state.hash,
        history: v.history.drop_last(),
        hash_history: if v.hash_history.len() > 0 {
            v.hash_history.drop_last()
        } else {
            v.hash_history
        },
    }
}

/// A move `unmake_move` can take back without failing and keep consistent: there is
/// a saved state; a piece of the side that moved stands on the destination; a
/// castling rook stands on its castling square and its corner is free; the origin
/// square is free once the mover is lifted; a captured piece goes back on a free
/// square of the board; the move counter does not underflow; and the saved hash
/// and rights match the restored position.
pub open spec fn unmake_ok(v: PosView, mv: Move) -> bool {
    let us = spec_opposite(v.side);
    let state = v.history.last();
    let from = mv_from(mv);
    let to = mv_to(mv);
    let placed = v.board[to];
    let original = unmake_original(v, mv);
    let b3 = unmake_board_lifted(v, mv).update(from, original);
    &&& v.history.len() > 0
    &&& from != to
    &&& placed < 12
    &&& spec_piece_color(placed as int) == us
    &&& unmake_is_castle(v, mv) ==> match castle_rook_squares(us, to) {
        Some((rf, rt)) => v.board[rt] == piece_code(us, PieceType::Rook) && v.board[rf] == 12,
        None => false,
    }
    &&& unmake_board_lifted(v, mv)[from] == 12
    &&& state.captured != 12 ==> {
        let c = unmake_capture_square(us, mv, original, state.en_passant);
        &&& state.captured < 12
        &&& 0 <= c < 64
        &&& b3[c] == 12
    }
    &&& us == Color::Black ==> v.fullmove >= 1
    &&& state.castling <= 15
    &&& state.hash == spec_hash(spec_unmake_board(v, mv), us, state.castling, state.en_passant)
}

impl Position {
    /// Takes back the last move, restoring the saved state.
    pub fn unmake_move(&mut self, mv: Move)
        requires
            old(self).wf(),
            unmake_ok(old(self)@, mv),
        ensures
            final(self).wf(),
            final(self)@ == spec_unmake(old(self)@, mv),
    {
        let ghost v = self@;
        let state = self.history.pop().unwrap();
        let from = mv.from_sq();
        let to = mv.to_sq();
        let promo = mv.promotion();
        let them = self.side_to_move;
        let us = them.opposite();
        let placed_piece = self.board[to as usize];
        let ff = square_file(from);
        let tf = square_file(to);
        let fdiff = if ff > tf {
            ff - tf
        } else {
            tf - ff
        };
        let was_castle = promo.is_none() && piece_type(placed_piece) == PieceType::King && fdiff
            == 2;
        if was_castle {
            let rook_from: u8;
            let rook_to: u8;
            if us == Color::White && to == 6 {
                rook_from = 7;
                rook_to = 5;
            } else if us == Color::White && to == 2 {
                rook_from = 0;
                rook_to = 3;
            } else if us == Color::Black && to == 62 {
                rook_from = 63;
                rook_to = 61;
            } else {
                rook_from = 56;
                rook_to = 59;
            }
            let rook = make_piece(us, PieceType::Rook);
            self.clear_sq_raw(rook_to, rook);
            self.set_sq_raw(rook_from, rook);
        }
        // lift the piece from the destination
        self.clear_sq_raw(to, placed_piece);
        assert(self.board@ =~= unmake_board_lifted(v, mv));
        // put the mover back, demoted if need be
        let original_piece = if promo.is_some() {
            make_piece(us, PieceType::Pawn)
        } else {
            placed_piece
        };
        let orig_pt = piece_type(original_piece);
        self.set_sq_raw(from, original_piece);
        // put the captured piece back
        if state.captured != NO_PIECE {
            let cap_sq = if promo.is_some() {
                to
            } else if orig_pt == PieceType::Pawn && to == state.en_passant {
                if us == Color::White {
                    to - 8
                } else {
                    to + 8
                }
            } else {
                to
            };
            self.set_sq_raw(cap_sq, state.captured);
        }
        assert(self.board@ =~= spec_unmake_board(v, mv));
        self.castling = state.castling;
        self.en_passant = state.en_passant;
        self.halfmove = state.halfmove;
        if us == Color::Black {
            self.fullmove = self.fullmove - 1;
        }
        self.side_to_move = us;
        self.hash = state.hash;
        self.hash_history.pop();
        self.recompute_occupied();
        assert(self.history@ =~= v.history.drop_last());
    }
}

/// The abstract position is consistent: board codes, hash and castling rights.
pub open spec fn view_ok(v: PosView) -> bool {
    &&& board_codes_ok(v.board)
    &&& v.hash == spec_hash(v.board, v.side, v.castling, v.en_passant)
    &&& v.castling <= 15
}

/// A move that `unmake_move` exactly undoes: a playable move that promotes only
/// pawns, and whose pawn arriving on the en passant square lands on an empty
/// square without promoting.
pub open spec fn move_reversible(v: PosView, mv: Move) -> bool {
    &&& move_ok(v, mv)
    &&& move_promo(mv) is Some ==> moving_type(v, mv) == PieceType::Pawn
    &&& (moving_type(v, mv) == PieceType::Pawn && mv_to(mv) == v.en_passant) ==> (v.board[mv_to(
        mv,
    )] == 12 && move_promo(mv) is None)
}

/// Taking back a move right after playing it restores the position exactly.
pub proof fn lemma_unmake_undoes_make(v: PosView, mv: Move)
    requires
        view_ok(v),
        move_reversible(v, mv),
    ensures
        unmake_ok(spec_make(v, mv), mv),
        spec_unmake(spec_make(v, mv), mv) == v,
{
    let q = spec_make(v, mv);
    let from = mv_from(mv);
    let to = mv_to(mv);
    assert(from < 64 && to < 64) by {
        crate::types::lemma_move_bounds(mv);
    }
    assert(q.history.last() == State {
        castling: v.castling,
        en_passant: v.en_passant,
        halfmove: v.halfmove,
        captured: spec_captured(v, mv),
        hash: v.hash,
    });
    lemma_piece_color_code(v.side);
    assert(spec_opposite(q.side) == v.side);
    assert(unmake_original(q, mv) == v.board[from]);
    assert(spec_unmake_board(q, mv) =~= v.board);
    assert(q.history.drop_last() =~= v.history);
    assert(q.hash_history.drop_last() =~= v.hash_history);
}

proof fn lemma_piece_color_code(c: Color)
    ensures
        forall|pt: PieceType| #[trigger] spec_piece_color(piece_code(c, pt)) == c,
        forall|pt: PieceType| #[trigger] pt_of_idx(piece_code(c, pt)) == pt,
        forall|pt: PieceType| 0 <= #[trigger] piece_code(c, pt) < 12,
{
}

/// The starting board: white pieces on ranks 1-2, black pieces on ranks 7-8.
pub open spec fn start_back_rank(f: int) -> PieceType {
    if f == 0 || f == 7 {
        PieceType::Rook
    } else if f == 1 || f == 6 {
        PieceType::Knight
    } else if f == 2 || f == 5 {
        PieceType::Bishop
    } else if f == 3 {
        PieceType::Queen
    } else {
        PieceType::King
    }
}

pub open spec fn start_board() -> Seq<u8> {
    Seq::new(
        64,
        |i: int|
            if i < 8 {
                piece_code(Color::White, start_back_rank(i)) as u8
            } else if i < 16 {
                piece_code(Color::White, PieceType::Pawn) as u8
            } else if i < 48 {
                12u8
            } else if i < 56 {
                piece_code(Color::Black, PieceType::Pawn) as u8
            } else {
                piece_code(Color::Black, start_back_rank(i - 56)) as u8
            },
    )
}

/// A king of color `c` stands on some square.
pub open spec fn has_king(board: Seq<u8>, c: Color) -> bool {
    exists|i: int| 0 <= i < 64 && #[trigger] board[i] == piece_code(c, PieceType::King)
}

/// Number of squares among `0..n` holding a code in `[lo, hi)`... restricted to one code.
pub open spec fn count_code(board: Seq<u8>, p: int, n: nat) -> nat
    decreases n,
{
    if n == 0 {
        0
    } else {
        count_code(board, p, (n - 1) as nat) + if board[n - 1] == p {
            1nat
        } else {
            0nat
        }
    }
}

/// Number of entries of `s` equal to `x`.
pub open spec fn count_eq(s: Seq<u64>, x: u64, n: nat) -> nat
    decreases n,
{
    if n == 0 {
        0
    } else {
        count_eq(s, x, (n - 1) as nat) + if s[n - 1] == x {
            1nat
        } else {
            0nat
        }
    }
}

/// Square color of a square: 0 or 1.
pub open spec fn square_shade(sq: int) -> int {
    (file_of(sq) + rank_of(sq)) % 2
}

/// Not enough material to mate: no pawns, rooks or queens, and either no minor
/// piece, a single minor piece, or exactly two bishops on squares of one color.
pub open spec fn spec_insufficient(board: Seq<u8>) -> bool {
    let nb = count_code(board, 2, 64) + count_code(board, 8, 64);
    let nn = count_code(board, 1, 64) + count_code(board, 7, 64);
    &&& count_code(board, 0, 64) + count_code(board, 6, 64) == 0
    &&& count_code(board, 3, 64) + count_code(board, 9, 64) == 0
    &&& count_code(board, 4, 64) + count_code(board, 10, 64) == 0
    &&& ((nb == 0 && nn == 0) || nb + nn == 1 || (nb == 2 && nn == 0 && forall|i: int, j: int|
        0 <= i < 64 && 0 <= j < 64 && (board[i] == 2 || board[i] == 8) && (board[j] == 2
            || board[j] == 8) ==> #[trigger] square_shade(i) == #[trigger] square_shade(j)))
}

proof fn lemma_count_except(board: Seq<u8>, c: int, s: int, n: nat)
    requires
        n <= board.len(),
        forall|i: int| 0 <= i < n && i != s ==> board[i] != c,
    ensures
        count_code(board, c, n) == if 0 <= s < n && board[s] == c {
            1nat
        } else {
            0nat
        },
    decreases n,
{
    if n > 0 {
        lemma_count_except(board, c, s, (n - 1) as nat);
    }
}

/// Kings and a single minor piece, knight or bishop, of either side cannot
/// mate: the material is insufficient and the position is a draw.
pub proof fn lemma_lone_minor_insufficient(v: PosView, s: int)
    requires
        v.board.len() == 64,
        0 <= s < 64,
        v.board[s] == 1 || v.board[s] == 2 || v.board[s] == 7 || v.board[s] == 8,
        forall|i: int| 0 <= i < 64 && i != s ==> v.board[i] == 12 || v.board[i] == 5 || v.board[i] == 11,
    ensures
        spec_insufficient(v.board),
        spec_draw(v),
{
    let b = v.board;
    lemma_count_except(b, 0, s, 64);
    lemma_count_except(b, 6, s, 64);
    lemma_count_except(b, 3, s, 64);
    lemma_count_except(b, 9, s, 64);
    lemma_count_except(b, 4, s, 64);
    lemma_count_except(b, 10, s, 64);
    lemma_count_except(b, 1, s, 64);
    lemma_count_except(b, 2, s, 64);
    lemma_count_except(b, 7, s, 64);
    lemma_count_except(b, 8, s, 64);
}

proof fn lemma_count_at_least(board: Seq<u8>, c: int, s: int, n: nat)
    requires
        n <= board.len(),
        0 <= s < n,
        board[s] == c,
    ensures
        count_code(board, c, n) >= 1,
    decreases n,
{
    if s < n - 1 {
        lemma_count_at_least(board, c, s, (n - 1) as nat);
    }
}

/// A pawn, rook or queen on the board is always enough material: the
/// insufficient-material draw does not apply.
pub proof fn lemma_heavy_material_sufficient(board: Seq<u8>, s: int)
    requires
        board.len() == 64,
        0 <= s < 64,
        board[s] < 12,
        board[s] % 6 == 0 || board[s] % 6 == 3 || board[s] % 6 == 4,
    ensures
        !spec_insufficient(board),
{
    lemma_count_at_least(board, board[s] as int, s, 64);
}

/// Bare kings cannot mate: the material is insufficient and the position is a draw.
pub proof fn lemma_bare_kings_insufficient(v: PosView)
    requires
        v.board.len() == 64,
        forall|i: int| 0 <= i < 64 ==> v.board[i] == 12 || v.board[i] == 5 || v.board[i] == 11,
    ensures
        spec_insufficient(v.board),
        spec_draw(v),
{
    let b = v.board;
    lemma_count_except(b, 0, -1, 64);
    lemma_count_except(b, 6, -1, 64);
    lemma_count_except(b, 3, -1, 64);
    lemma_count_except(b, 9, -1, 64);
    lemma_count_except(b, 4, -1, 64);
    lemma_count_except(b, 10, -1, 64);
    lemma_count_except(b, 1, -1, 64);
    lemma_count_except(b, 2, -1, 64);
    lemma_count_except(b, 7, -1, 64);
    lemma_count_except(b, 8, -1, 64);
}

/// The current hash occurs at least three times in the hash history.
pub open spec fn spec_threefold(v: PosView) -> bool {
    count_eq(v.hash_history, v.hash, v.hash_history.len()) >= 3
}

/// The current hash occurs in the hash history before its last entry.
pub open spec fn spec_repetition(v: PosView) -> bool {
    exists|i: int| 0 <= i < v.hash_history.len() - 1 && #[trigger] v.hash_history[i] == v.hash
}

/// Fifty-move rule, insufficient material or threefold repetition.
pub open spec fn spec_draw(v: PosView) -> bool {
    v.halfmove >= 100 || spec_insufficient(v.board) || spec_threefold(v)
}

/// Counting a bitboard's bits counts the squares of its piece code.
pub proof fn lemma_popcount_counts(board: Seq<u8>, b: u64, p: int, n: nat)
    requires
        n <= 64,
        board.len() == 64,
        forall|i: u64| i < 64 ==> #[trigger] bit(b, i) == (board[i as int] == p),
    ensures
        crate::bits::popcount_upto(b, n) == count_code(board, p, n),
    decreases n,
{
    if n > 0 {
        lemma_popcount_counts(board, b, p, (n - 1) as nat);
        assert(bit(b, (n - 1) as u64) == (board[n - 1] == p));
    }
}

impl Position {
    /// The Zobrist hash recomputed from scratch.
    pub fn compute_hash(&self) -> (h: u64)
        requires
            board_codes_ok(self.board@),
            self.castling <= 15,
        ensures
            h == spec_hash(self.board@, self.side_to_move, self.castling, self.en_passant),
    {
        let mut h = 0u64;
        let mut sq: usize = 0;
        while sq < 64
            invariant
                sq <= 64,
                board_codes_ok(self.board@),
                h == board_hash(self.board@, sq as nat),
            decreases 64 - sq,
        {
            let p = self.board[sq];
            if p != NO_PIECE {
                h = h ^ piece_key(p, sq as u8);
            } else {
                proof {
                    lemma_xor_self(h);
                }
            }
            sq += 1;
        }
        if self.side_to_move == Color::Black {
            h = h ^ side_key();
        } else {
            proof {
                lemma_xor_self(h);
            }
        }
        h = h ^ castling_key(self.castling);
        if self.en_passant != NO_SQUARE {
            h = h ^ ep_key(square_file(self.en_passant));
        } else {
            proof {
                lemma_xor_self(h);
            }
        }
        h
    }

    /// The lowest square holding a king of `color`.
    pub fn king_square(&self, color: Color) -> (sq: Square)
        requires
            self.wf(),
        ensures
            has_king(self.board@, color) ==> sq < 64 && self.board@[sq as int] == piece_code(
                color,
                PieceType::King,
            ) && forall|j: int| 0 <= j < sq ==> self.board@[j] != piece_code(color, PieceType::King),
            !has_king(self.board@, color) ==> sq == 64,
    {
        let k = color.as_usize() * 6 + 5;
        let bb = self.bb[k];
        proof {
            if has_king(self.board@, color) {
                let i = choose|i: int| 0 <= i < 64 && #[trigger] self.board@[i] == piece_code(
                    color,
                    PieceType::King,
                );
                assert(bit(bb, i as u64));
                crate::bits::lemma_bit_implies_nonzero(bb, i as u64);
                crate::bits::lemma_lowest_bit(bb);
                assert forall|j: int| 0 <= j < vstd::std_specs::bits::u64_trailing_zeros(
                    bb,
                ) implies self.board@[j] != piece_code(color, PieceType::King) by {
                    assert(!bit(bb, j as u64));
                }
            } else {
                assert forall|i: u64| i < 64 implies #[trigger] bit(bb, i) == bit(0u64, i) by {
                    lemma_zero_no_bit(i);
                    assert(self.board@[i as int] != piece_code(color, PieceType::King));
                }
                crate::bits::lemma_bits_ext(bb, 0u64);
            }
        }
        lsb(bb)
    }

    /// Builds a position from its fields, computing bitboards, occupancy and hash.
    fn from_parts(
        board: [u8; 64],
        side_to_move: Color,
        castling: u8,
        en_passant: u8,
        halfmove: u8,
        fullmove: u16,
    ) -> (pos: Position)
        requires
            board_codes_ok(board@),
            castling <= 15,
        ensures
            pos.wf(),
            pos.board@ == board@,
            pos.side_to_move == side_to_move,
            pos.castling == castling,
            pos.en_passant == en_passant,
            pos.halfmove == halfmove,
            pos.fullmove == fullmove,
            pos.history@ == Seq::<State>::empty(),
            pos.hash_history@ == seq![pos.hash],
    {
        let mut bb = [0u64; 12];
        let mut sq: usize = 0;
        proof {
            assert forall|i: u64| i < 64 implies !#[trigger] bit(0u64, i) by {
                lemma_zero_no_bit(i);
            }
        }
        while sq < 64
            invariant
                sq <= 64,
                board_codes_ok(board@),
                forall|p: int, i: u64|
                    0 <= p < 12 && i < 64 ==> #[trigger] bit(bb@[p], i) == (i < sq && board@[i as int]
                        == p),
            decreases 64 - sq,
        {
            let p = board[sq];
            if p != NO_PIECE {
                let ghost obb = bb@;
                bb[p as usize] = bb[p as usize] | (1u64 << sq);
                proof {
                    assert forall|q: int, i: u64| 0 <= q < 12 && i < 64 implies #[trigger] bit(
                        bb@[q],
                        i,
                    ) == (i < sq + 1 && board@[i as int] == q) by {
                        if q == p {
                            lemma_bit_or(obb[q], 1u64 << sq, i);
                            lemma_bit_single(sq as u64, i);
                        } else {
                            assert(bb@[q] == obb[q]);
                        }
                    }
                }
            }
            sq += 1;
        }
        let mut pos = Position {
            board,
            bb,
            occupied: [0u64; 2],
            occupied_all: 0,
            side_to_move,
            castling,
            en_passant,
            halfmove,
            fullmove,
            hash: 0,
            history: Vec::with_capacity(256),
            hash_history: Vec::with_capacity(256),
        };
        let hash = pos.compute_hash();
        pos.hash = hash;
        pos.hash_history.push(hash);
        pos.recompute_occupied();
        pos
    }

    /// The standard starting position.
    pub fn new() -> (pos: Self)
        ensures
            pos.wf(),
            pos.board@ == start_board(),
            pos.side_to_move == Color::White,
            pos.castling == 15,
            pos.en_passant == 64,
            pos.halfmove == 0,
            pos.fullmove == 1,
            pos.history@ == Seq::<State>::empty(),
            pos.hash_history@ == seq![pos.hash],
    {
        let mut board = [NO_PIECE; 64];
        let mut f: usize = 0;
        while f < 8
            invariant
                f <= 8,
                board@.len() == 64,
                forall|i: int|
                    0 <= i < 64 ==> #[trigger] board@[i] == if file_of(i) < f {
                        start_board()[i]
                    } else {
                        12u8
                    },
            decreases 8 - f,
        {
            let back = if f == 0 || f == 7 {
                PieceType::Rook
            } else if f == 1 || f == 6 {
                PieceType::Knight
            } else if f == 2 || f == 5 {
                PieceType::Bishop
            } else if f == 3 {
                PieceType::Queen
            } else {
                PieceType::King
            };
            board[f] = make_piece(Color::White, back);
            board[8 + f] = make_piece(Color::White, PieceType::Pawn);
            board[48 + f] = make_piece(Color::Black, PieceType::Pawn);
            board[56 + f] = make_piece(Color::Black, back);
            f += 1;
        }
        assert(board@ =~= start_board());
        Self::from_parts(board, Color::White, 15, NO_SQUARE, 0, 1)
    }

    /// Fifty-move rule, insufficient material, or threefold repetition.
    pub fn is_draw(&self) -> (r: bool)
        requires
            self.wf(),
        ensures
            r == spec_draw(self@),
    {
        if self.halfmove >= 100 {
            return true;
        }
        if self.is_insufficient_material() {
            return true;
        }
        if self.is_threefold() {
            return true;
        }
        false
    }

    /// Neither side can mate with the material left.
    pub fn is_insufficient_material(&self) -> (r: bool)
        requires
            self.wf(),
        ensures
            r == spec_insufficient(self.board@),
    {
        proof {
            lemma_counts_from_bitboards(self);
        }
        let pawns = self.bb[0] | self.bb[6];
        if pawns != 0 {
            proof {
                lemma_union_nonzero(self.board@, self.bb@[0], self.bb@[6], 0, 6);
            }
            return false;
        }
        let rooks = self.bb[3] | self.bb[9];
        let queens = self.bb[4] | self.bb[10];
        if rooks != 0 || queens != 0 {
            proof {
                lemma_union_nonzero(self.board@, self.bb@[0], self.bb@[6], 0, 6);
                lemma_union_nonzero(self.board@, self.bb@[3], self.bb@[9], 3, 9);
                lemma_union_nonzero(self.board@, self.bb@[4], self.bb@[10], 4, 10);
            }
            return false;
        }
        proof {
            lemma_union_nonzero(self.board@, self.bb@[0], self.bb@[6], 0, 6);
            lemma_union_nonzero(self.board@, self.bb@[3], self.bb@[9], 3, 9);
            lemma_union_nonzero(self.board@, self.bb@[4], self.bb@[10], 4, 10);
        }
        let bishops = self.bb[2] | self.bb[8];
        let knights = self.bb[1] | self.bb[7];
        let num_bishops = crate::types::count_bits(bishops);
        let num_knights = crate::types::count_bits(knights);
        proof {
            lemma_union_count(self.board@, self.bb@[2], self.bb@[8], 2, 8);
            lemma_union_count(self.board@, self.bb@[1], self.bb@[7], 1, 7);
        }
        if num_bishops == 0 && num_knights == 0 {
            return true;
        }
        if num_bishops + num_knights == 1 {
            return true;
        }
        if num_bishops == 2 && num_knights == 0 {
            let mut bb = bishops;
            let mut colors: u8 = 0;
            let mut count: u32 = 0;
            let ghost mut first: int = 0;
            while bb != 0
                invariant
                    self.wf(),
                    count_code(self.board@, 0, 64) + count_code(self.board@, 6, 64) == 0,
                    count_code(self.board@, 3, 64) + count_code(self.board@, 9, 64) == 0,
                    count_code(self.board@, 4, 64) + count_code(self.board@, 10, 64) == 0,
                    count_code(self.board@, 2, 64) + count_code(self.board@, 8, 64) == 2,
                    count_code(self.board@, 1, 64) + count_code(self.board@, 7, 64) == 0,
                    bishops == self.bb@[2] | self.bb@[8],
                    forall|i: u64| i < 64 ==> #[trigger] bit(bishops, i) == (self.board@[i as int]
                        == 2 || self.board@[i as int] == 8),
                    forall|i: u64| i < 64 && #[trigger] bit(bb, i) ==> bit(bishops, i),
                    count == 0 ==> forall|i: u64| i < 64 ==> (#[trigger] bit(bishops, i) ==> bit(
                        bb,
                        i,
                    )),
                    count > 0 ==> 0 <= first < 64 && bit(bishops, first as u64) && colors
                        == square_shade(first),
                    count > 0 ==> forall|i: u64|
                        i < 64 && #[trigger] bit(bishops, i) && !bit(bb, i) ==> square_shade(
                            i as int,
                        ) == colors,
                decreases bb,
            {
                let ghost obb = bb;
                let sq = crate::types::pop_lsb(&mut bb);
                let col = (square_file(sq) + crate::types::square_rank(sq)) % 2;
                if count == 0 {
                    colors = col;
                    proof {
                        first = sq as int;
                    }
                } else if col != colors {
                    proof {
                        assert(bit(bishops, sq as u64));
                        assert(bit(bishops, first as u64));
                        let i = sq as int;
                        let j = first;
                        assert(self.board@[i] == 2 || self.board@[i] == 8);
                        assert(self.board@[j] == 2 || self.board@[j] == 8);
                        assert(square_shade(i) != square_shade(j));
                    }
                    return false;
                }
                if count < 64 {
                    count += 1;
                }
            }
            proof {
                assert forall|i: int, j: int|
                    0 <= i < 64 && 0 <= j < 64 && (self.board@[i] == 2 || self.board@[i] == 8) && (
                    self.board@[j] == 2 || self.board@[j] == 8) implies #[trigger] square_shade(i)
                    == #[trigger] square_shade(j) by {
                    assert(bit(bishops, i as u64));
                    assert(bit(bishops, j as u64));
                    lemma_zero_no_bit(i as u64);
                    lemma_zero_no_bit(j as u64);
                }
            }
            return true;
        }
        false
    }

    /// The current hash occurs at least three times in the hash history.
    pub fn is_threefold(&self) -> (r: bool)
        ensures
            r == spec_threefold(self@),
    {
        let mut count: usize = 0;
        let mut i: usize = 0;
        let n = self.hash_history.len();
        while i < n
            invariant
                i <= n,
                n == self.hash_history@.len(),
                count == count_eq(self.hash_history@, self.hash, i as nat),
                count < 3,
            decreases n - i,
        {
            if self.hash_history[i] == self.hash {
                count += 1;
                if count >= 3 {
                    proof {
                        lemma_count_eq_mono(self.hash_history@, self.hash, (i + 1) as nat, n as nat);
                    }
                    return true;
                }
            }
            i += 1;
        }
        false
    }

    /// The current hash occurs earlier in the hash history (a repetition).
    pub fn is_repetition(&self) -> (r: bool)
        ensures
            r == spec_repetition(self@),
    {
        let n = self.hash_history.len();
        if n == 0 {
            return false;
        }
        let mut i: usize = n - 1;
        while i > 0
            invariant
                i <= n - 1,
                n == self.hash_history@.len(),
                n > 0,
                forall|j: int| i <= j < n - 1 ==> self.hash_history@[j] != self.hash,
            decreases i,
        {
            i -= 1;
            if self.hash_history[i] == self.hash {
                assert(spec_repetition(self@)) by {
                    assert(self@.hash_history[i as int] == self@.hash);
                }
                return true;
            }
        }
        false
    }
}

proof fn lemma_count_eq_mono(s: Seq<u64>, x: u64, a: nat, b: nat)
    requires
        a <= b <= s.len(),
    ensures
        count_eq(s, x, a) <= count_eq(s, x, b),
    decreases b,
{
    if b > a {
        lemma_count_eq_mono(s, x, a, (b - 1) as nat);
    }
}

proof fn lemma_counts_from_bitboards(pos: &Position)
    requires
        pos.wf(),
    ensures
        forall|p: int|
            0 <= p < 12 ==> crate::bits::popcount(#[trigger] pos.bb@[p]) == count_code(
                pos.board@,
                p,
                64,
            ),
{
    assert forall|p: int| 0 <= p < 12 implies crate::bits::popcount(#[trigger] pos.bb@[p])
        == count_code(pos.board@, p, 64) by {
        lemma_popcount_counts(pos.board@, pos.bb@[p], p, 64);
    }
}

proof fn lemma_count_zero_iff(board: Seq<u8>, p: int, n: nat)
    requires
        n <= board.len(),
    ensures
        (count_code(board, p, n) == 0) <==> forall|i: int| 0 <= i < n ==> board[i] != p,
    decreases n,
{
    if n > 0 {
        lemma_count_zero_iff(board, p, (n - 1) as nat);
    }
}

/// The union of two piece bitboards is nonzero exactly when one of the codes is on the board.
proof fn lemma_union_nonzero(board: Seq<u8>, a: u64, b: u64, p: int, q: int)
    requires
        board.len() == 64,
        forall|i: u64| i < 64 ==> #[trigger] bit(a, i) == (board[i as int] == p),
        forall|i: u64| i < 64 ==> #[trigger] bit(b, i) == (board[i as int] == q),
    ensures
        (a | b != 0) <==> (count_code(board, p, 64) + count_code(board, q, 64) != 0),
{
    lemma_count_zero_iff(board, p, 64);
    lemma_count_zero_iff(board, q, 64);
    crate::bits::lemma_nonzero_iff_bit(a | b);
    if a | b != 0 {
        let i = choose|i: u64| i < 64 && #[trigger] bit(a | b, i);
        lemma_bit_or(a, b, i);
    } else {
        assert forall|i: int| 0 <= i < 64 implies board[i] != p && board[i] != q by {
            lemma_bit_or(a, b, i as u64);
            lemma_zero_no_bit(i as u64);
        }
    }
}

/// The bits of the union of two disjoint piece bitboards count both codes.
proof fn lemma_union_count(board: Seq<u8>, a: u64, b: u64, p: int, q: int)
    requires
        board.len() == 64,
        p != q,
        forall|i: u64| i < 64 ==> #[trigger] bit(a, i) == (board[i as int] == p),
        forall|i: u64| i < 64 ==> #[trigger] bit(b, i) == (board[i as int] == q),
    ensures
        crate::bits::popcount(a | b) == count_code(board, p, 64) + count_code(board, q, 64),
        forall|i: u64| i < 64 ==> #[trigger] bit(a | b, i) == (board[i as int] == p || board[i as int]
            == q),
{
    assert forall|i: u64| i < 64 implies #[trigger] bit(a | b, i) == (board[i as int] == p
        || board[i as int] == q) by {
        lemma_bit_or(a, b, i);
    }
    lemma_union_count_upto(board, a | b, p, q, 64);
}

proof fn lemma_union_count_upto(board: Seq<u8>, u: u64, p: int, q: int, n: nat)
    requires
        board.len() == 64,
        n <= 64,
        p != q,
        forall|i: u64| i < 64 ==> #[trigger] bit(u, i) == (board[i as int] == p || board[i as int]
            == q),
    ensures
        crate::bits::popcount_upto(u, n) == count_code(board, p, n) + count_code(board, q, n),
    decreases n,
{
    if n > 0 {
        lemma_union_count_upto(board, u, p, q, (n - 1) as nat);
        assert(bit(u, (n - 1) as u64) == (board[n - 1] == p || board[n - 1] == q));
    }
}

} // verus!
