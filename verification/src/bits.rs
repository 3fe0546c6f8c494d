//! Bit-level facts about 64-bit bitboards, proved once and reused.
use vstd::prelude::*;
use vstd::std_specs::bits::{u64_trailing_zeros, axiom_u64_trailing_zeros};

verus! {

/// Bit `i` of `b` is set.
pub open spec fn bit(b: u64, i: u64) -> bool {
    ((b >> i) & 1u64) == 1u64
}

/// Number of set bits of `b` among positions `0..n`.
pub open spec fn popcount_upto(b: u64, n: nat) -> nat
    decreases n,
{
    if n == 0 {
        0
    } else {
        popcount_upto(b, (n - 1) as nat) + if bit(b, (n - 1) as u64) { 1nat } else { 0nat }
    }
}

/// Number of set bits of `b`.
pub open spec fn popcount(b: u64) -> nat {
    popcount_upto(b, 64)
}

pub proof fn lemma_bit_or(a: u64, b: u64, i: u64)
    requires
        i < 64,
    ensures
        bit(a | b, i) == (bit(a, i) || bit(b, i)),
{
    assert((((a | b) >> i) & 1u64 == 1u64) == (((a >> i) & 1u64 == 1u64) || ((b >> i) & 1u64
        == 1u64))) by (bit_vector)
        requires
            i < 64,
    ;
}

pub proof fn lemma_bit_and(a: u64, b: u64, i: u64)
    requires
        i < 64,
    ensures
        bit(a & b, i) == (bit(a, i) && bit(b, i)),
{
    assert((((a & b) >> i) & 1u64 == 1u64) == (((a >> i) & 1u64 == 1u64) && ((b >> i) & 1u64
        == 1u64))) by (bit_vector)
        requires
            i < 64,
    ;
}

pub proof fn lemma_bit_not(a: u64, i: u64)
    requires
        i < 64,
    ensures
        bit(!a, i) == !bit(a, i),
{
    assert((((!a) >> i) & 1u64 == 1u64) == !((a >> i) & 1u64 == 1u64)) by (bit_vector)
        requires
            i < 64,
    ;
}

pub proof fn lemma_bit_single(s: u64, i: u64)
    requires
        s < 64,
        i < 64,
    ensures
        bit(1u64 << s, i) == (i == s),
{
    assert(((((1u64 << s) >> i) & 1u64) == 1u64) == (i == s)) by (bit_vector)
        requires
            s < 64,
            i < 64,
    ;
}

pub proof fn lemma_bit_implies_nonzero(x: u64, i: u64)
    requires
        bit(x, i),
    ensures
        x != 0,
{
    assert(((x >> i) & 1u64) == 1u64 ==> x != 0) by (bit_vector);
}

pub proof fn lemma_zero_no_bit(i: u64)
    ensures
        !bit(0, i),
{
    assert(((0u64 >> i) & 1u64) != 1u64) by (bit_vector);
}

/// A nonzero word has its lowest set bit at `trailing_zeros`, below 64.
pub proof fn lemma_lowest_bit(x: u64)
    requires
        x != 0,
    ensures
        u64_trailing_zeros(x) < 64,
        bit(x, u64_trailing_zeros(x) as u64),
        forall|j: u64| j < u64_trailing_zeros(x) ==> !#[trigger] bit(x, j),
{
    axiom_u64_trailing_zeros(x);
}

/// `x & (x - 1)` clears exactly the lowest set bit.
pub proof fn lemma_clear_lowest(x: u64, j: u64)
    requires
        x != 0,
        j < 64,
    ensures
        bit(x & ((x - 1) as u64), j) == (bit(x, j) && j != u64_trailing_zeros(x) as u64),
{
    axiom_u64_trailing_zeros(x);
    let t = u64_trailing_zeros(x) as u64;
    assert(x << ((64 - t) as u64) == 0);
    assert((((x & ((x - 1) as u64)) >> j) & 1u64 == 1u64) == (((x >> j) & 1u64 == 1u64) && j != t))
        by (bit_vector)
        requires
            x != 0,
            t < 64,
            j < 64,
            (x >> t) & 1u64 == 1u64,
            x << ((64 - t) as u64) == 0,
    ;
}

/// Any nonzero word has some set bit below 64.
pub proof fn lemma_nonzero_has_bit(x: u64)
    requires
        x != 0,
    ensures
        exists|i: u64| i < 64 && #[trigger] bit(x, i),
{
    lemma_lowest_bit(x);
    let t = u64_trailing_zeros(x) as u64;
    assert(bit(x, t));
}

/// `x != 0` exactly when some bit below 64 is set.
pub proof fn lemma_nonzero_iff_bit(x: u64)
    ensures
        (x != 0) <==> exists|i: u64| i < 64 && #[trigger] bit(x, i),
{
    if x != 0 {
        lemma_nonzero_has_bit(x);
    } else {
        assert forall|i: u64| i < 64 implies !#[trigger] bit(x, i) by {
            lemma_zero_no_bit(i);
        }
    }
}

/// Two words with the same bits below 64 are equal.
pub proof fn lemma_bits_ext(a: u64, b: u64)
    requires
        forall|i: u64| i < 64 ==> #[trigger] bit(a, i) == bit(b, i),
    ensures
        a == b,
{
    let d = a ^ b;
    if d != 0 {
        lemma_lowest_bit(d);
        let t = u64_trailing_zeros(d) as u64;
        assert(bit(a, t) == bit(b, t));
        assert((((a ^ b) >> t) & 1u64 == 1u64) ==> (((a >> t) & 1u64 == 1u64) != ((b >> t) & 1u64
            == 1u64))) by (bit_vector);
    }
    assert(a ^ b == 0u64 ==> a == b) by (bit_vector);
}

/// Clearing the lowest set bit makes a nonzero word smaller.
pub proof fn lemma_and_below(x: u64, y: u64)
    requires
        x != 0,
        y == (x - 1) as u64,
    ensures
        x & y < x,
{
    assert(x != 0 ==> x & ((x - 1) as u64) < x) by (bit_vector);
}

/// XOR-ing a word into a four-part XOR is the same as XOR-ing it into any one part.
pub proof fn lemma_xor4_toggle(a: u64, b: u64, c: u64, d: u64, t: u64)
    ensures
        (((a ^ b) ^ c) ^ d) ^ t == (((a ^ t) ^ b) ^ c) ^ d,
        (((a ^ b) ^ c) ^ d) ^ t == ((a ^ (b ^ t)) ^ c) ^ d,
        (((a ^ b) ^ c) ^ d) ^ t == ((a ^ b) ^ (c ^ t)) ^ d,
        (((a ^ b) ^ c) ^ d) ^ t == ((a ^ b) ^ c) ^ (d ^ t),
{
    assert((((a ^ b) ^ c) ^ d) ^ t == (((a ^ t) ^ b) ^ c) ^ d && (((a ^ b) ^ c) ^ d) ^ t == ((a
        ^ (b ^ t)) ^ c) ^ d && (((a ^ b) ^ c) ^ d) ^ t == ((a ^ b) ^ (c ^ t)) ^ d && (((a ^ b)
        ^ c) ^ d) ^ t == ((a ^ b) ^ c) ^ (d ^ t)) by (bit_vector);
}

/// Masking a byte never makes it larger.
pub proof fn lemma_u8_and_le(c: u8, m: u8)
    ensures
        c & m <= c,
{
    assert(c & m <= c) by (bit_vector);
}

pub proof fn lemma_xor_self(a: u64)
    ensures
        a ^ a == 0,
        a ^ 0 == a,
        0 ^ a == a,
{
    assert(a ^ a == 0 && a ^ 0 == a && 0 ^ a == a) by (bit_vector);
}

pub proof fn lemma_xor_assoc_comm(a: u64, b: u64, c: u64)
    ensures
        (a ^ b) ^ c == a ^ (b ^ c),
        a ^ b == b ^ a,
{
    assert((a ^ b) ^ c == a ^ (b ^ c) && a ^ b == b ^ a) by (bit_vector);
}

} // verus!
