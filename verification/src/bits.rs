//! Bit-key primitives: a key is a `u64` read as a fixed-width, ordered
//! sequence of bits, most significant first. A Patricia branch is described
//! by a branching position `bit` and the bits the whole subtree shares above
//! that position, kept shifted down next to bit zero.

use vstd::prelude::*;

verus! {

/// True when bit `i` of `k` is set.
pub(crate) open spec fn bit_set(k: u64, i: u64) -> bool
    recommends
        i < 64,
{
    (k >> i) & 1 == 1
}

/// The bits of `k` strictly above position `i`, shifted down next to bit zero.
pub(crate) open spec fn bits_above(k: u64, i: u64) -> u64
    recommends
        i < 64,
{
    (k >> i) >> 1
}

/// A key whose bits above position `b` are those of `p` and whose other bits
/// are zero: a representative for every key of a branch with prefix `p`.
pub(crate) open spec fn rep_key(p: u64, b: u64) -> u64
    recommends
        b < 64,
{
    (p << 1) << b
}

/// `k` agrees with `c` on every bit position strictly above `b`.
/// `b == -1` asks for agreement everywhere, `b >= 63` for nothing.
pub(crate) open spec fn agrees_above(k: u64, c: u64, b: int) -> bool {
    if b < 0 {
        k == c
    } else if b >= 63 {
        true
    } else {
        bits_above(k, b as u64) == bits_above(c, b as u64)
    }
}

/// Two words are equal exactly when their exclusive or is zero.
pub(crate) proof fn lemma_xor_zero(a: u64, b: u64)
    by (bit_vector)
    ensures
        (a ^ b) == 0 <==> a == b,
{
}

/// Nothing lies strictly above the top bit position.
pub(crate) proof fn lemma_no_bits_above_top(x: u64)
    by (bit_vector)
    ensures
        (x >> 63u64) >> 1 == 0,
{
}

/// The lowest bit of a word is zero or one.
pub(crate) proof fn lemma_bit01(y: u64)
    by (bit_vector)
    ensures
        y & 1 == 0 <==> y & 1 != 1,
{
}

/// A word with bit zero clear and nothing above bit zero is zero.
pub(crate) proof fn lemma_zero_word(x: u64)
    by (bit_vector)
    requires
        (x >> 0u64) & 1 == 0,
        (x >> 0u64) >> 1 == 0,
    ensures
        x == 0,
{
}

/// Stepping the highest-set-bit search down one position.
pub(crate) proof fn lemma_highest_step(x: u64, j: u64)
    by (bit_vector)
    requires
        j < 63,
        (x >> ((j + 1) as u64)) & 1 == 0,
        (x >> ((j + 1) as u64)) >> 1 == 0,
    ensures
        (x >> j) >> 1 == 0,
{
}

/// Two words that differ at position `i` and agree above it have equal high
/// parts and opposite bits at `i`.
pub(crate) proof fn lemma_branch_split(k1: u64, k2: u64, i: u64)
    by (bit_vector)
    requires
        i < 64,
        ((k1 ^ k2) >> i) & 1 == 1,
        ((k1 ^ k2) >> i) >> 1 == 0,
    ensures
        bits_above(k1, i) == bits_above(k2, i),
        bit_set(k1, i) != bit_set(k2, i),
{
}

/// Agreement above a lower position carries up: the two words then agree on
/// the high part above any higher position `j`, and at `j` itself.
#[verifier::rlimit(60)]
pub(crate) proof fn lemma_above_lift(k: u64, c: u64, b: u64, j: u64)
    by (bit_vector)
    requires
        b < j,
        j < 64,
        bits_above(k, b) == bits_above(c, b),
    ensures
        bits_above(k, j) == bits_above(c, j),
        bit_set(k, j) == bit_set(c, j),
{
}

/// If two words still differ above position `b`, the highest position at
/// which they differ lies above `b`.
pub(crate) proof fn lemma_diff_high(c1: u64, c2: u64, b: u64, i: u64)
    by (bit_vector)
    requires
        b < 64,
        i < 64,
        bits_above(c1, b) != bits_above(c2, b),
        ((c1 ^ c2) >> i) >> 1 == 0,
    ensures
        i > b,
{
}

/// A difference above a higher position is still a difference above any
/// lower position.
#[verifier::rlimit(80)]
pub(crate) proof fn lemma_diff_down(x: u64, y: u64, lo: u64, hi: u64)
    by (bit_vector)
    requires
        lo < hi,
        hi < 64,
        bits_above(x, hi) != bits_above(y, hi),
    ensures
        bits_above(x, lo) != bits_above(y, lo),
{
}

/// A key with the branching bit clear is smaller than one with it set, when
/// both agree above the branching position.
pub(crate) proof fn lemma_branch_order(kl: u64, kr: u64, i: u64)
    by (bit_vector)
    requires
        i < 64,
        bits_above(kl, i) == bits_above(kr, i),
        !bit_set(kl, i),
        bit_set(kr, i),
    ensures
        kl < kr,
{
}

/// The high part of any key round-trips through a representative key.
pub(crate) proof fn lemma_prefix_roundtrip(k: u64, i: u64)
    by (bit_vector)
    requires
        i < 64,
    ensures
        bits_above(rep_key(bits_above(k, i), i), i) == bits_above(k, i),
{
}

/// Position of the highest set bit of a non-zero word.
pub(crate) fn highest_bit(x: u64) -> (i: u64)
    requires
        x != 0,
    ensures
        i < 64,
        bit_set(x, i),
        bits_above(x, i) == 0,
{
    let mut i: u64 = 63;
    proof {
        lemma_no_bits_above_top(x);
    }
    loop
        invariant
            x != 0,
            i < 64,
            bits_above(x, i) == 0,
        decreases i,
    {
        if (x >> i) & 1 == 1 {
            return i;
        }
        proof {
            lemma_bit01(x >> i);
            if i == 0 {
                assert((x >> 0u64) & 1 == 0 && (x >> 0u64) >> 1 == 0);
                lemma_zero_word(x);
                assert(false);
            }
            let j = (i - 1) as u64;
            assert((j + 1) as u64 == i);
            lemma_highest_step(x, j);
        }
        i = i - 1;
    }
}

} // verus!
