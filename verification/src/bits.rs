//! Word-level toolkit: single-bit tests, a popcount specification with its
//! arithmetic laws, and the handful of bit-vector facts every other module
//! builds on.

use vstd::prelude::*;

verus! {

/// True iff bit `i` of the word `b` is set.
pub open spec fn nth(b: u64, i: u64) -> bool
    recommends
        i < 64,
{
    b & (1u64 << i) != 0
}

/// Number of set bits in `b`.
pub open spec fn popcnt(b: u64) -> nat
    decreases b,
{
    if b == 0 {
        0
    } else {
        (if b % 2 == 1 {
            1nat
        } else {
            0nat
        }) + popcnt(b / 2)
    }
}

/// Pointwise meaning of the bitwise connectives.
pub proof fn lemma_bit_ops(x: u64, y: u64, i: u64)
    by (bit_vector)
    requires
        i < 64,
    ensures
        nth(x | y, i) == (nth(x, i) || nth(y, i)),
        nth(x & y, i) == (nth(x, i) && nth(y, i)),
        nth(x ^ y, i) == (nth(x, i) != nth(y, i)),
        nth(!x, i) == !nth(x, i),
{
}

/// Pointwise meaning of the shift operators.
pub proof fn lemma_bit_shift(x: u64, k: u64, i: u64)
    by (bit_vector)
    requires
        i < 64,
        k < 64,
    ensures
        nth(x << k, i) == (i >= k && nth(x, (i - k) as u64)),
        nth(x >> k, i) == (i + k < 64 && nth(x, (i + k) as u64)),
{
}

/// The zero word has no bits, and a word with a bit is not zero.
pub proof fn lemma_bit_zero(x: u64, i: u64)
    by (bit_vector)
    requires
        i < 64,
    ensures
        x == 0 ==> !nth(x, i),
        nth(1u64 << i, i),
{
}

proof fn lemma_nonzero_has_bit_rec(x: u64, j: u64)
    requires
        j < 64,
        x >> j != 0,
    ensures
        exists|i: u64| i < 64 && nth(x, i),
    decreases 64 - j,
{
    if (x >> j) & 1 == 1 {
        assert(nth(x, j)) by (bit_vector)
            requires
                (x >> j) & 1 == 1 && j < 64,
        ;
    } else {
        assert(j < 63 && x >> ((j + 1) as u64) != 0) by (bit_vector)
            requires
                x >> j != 0 && (x >> j) & 1 != 1 && j < 64,
        ;
        lemma_nonzero_has_bit_rec(x, (j + 1) as u64);
    }
}

/// A nonzero word has at least one set bit.
pub proof fn lemma_nonzero_has_bit(x: u64)
    requires
        x != 0,
    ensures
        exists|i: u64| i < 64 && nth(x, i),
{
    assert(x >> 0 == x) by (bit_vector);
    lemma_nonzero_has_bit_rec(x, 0);
}

/// Two words with the same bits are equal.
pub proof fn lemma_bit_ext(x: u64, y: u64)
    requires
        forall|i: u64| i < 64 ==> nth(x, i) == nth(y, i),
    ensures
        x == y,
{
    if x != y {
        assert(x ^ y != 0) by (bit_vector)
            requires
                x != y,
        ;
        lemma_nonzero_has_bit(x ^ y);
        let i = choose|i: u64| i < 64 && nth(x ^ y, i);
        lemma_bit_ops(x, y, i);
    }
}

/// Popcount adds over disjoint words.
pub proof fn lemma_popcnt_disjoint(a: u64, b: u64)
    requires
        a & b == 0,
    ensures
        popcnt(a | b) == popcnt(a) + popcnt(b),
    decreases a,
{
    if a == 0 {
        assert(a | b == b) by (bit_vector)
            requires
                a == 0,
        ;
    } else {
        assert((a / 2) & (b / 2) == 0 && (a | b) / 2 == (a / 2) | (b / 2) && (a | b) % 2 == a % 2
            + b % 2 && (a | b) != 0) by (bit_vector)
            requires
                a & b == 0 && a != 0,
        ;
        lemma_popcnt_disjoint(a / 2, b / 2);
    }
}

/// A single bit has popcount one.
pub proof fn lemma_popcnt_single(i: u64)
    requires
        i < 64,
    ensures
        popcnt(1u64 << i) == 1,
    decreases i,
{
    if i == 0 {
        assert(1u64 << 0 == 1) by (bit_vector);
        assert(popcnt(1) == 1) by {
            reveal_with_fuel(popcnt, 2);
        }
    } else {
        assert((1u64 << i) % 2 == 0 && (1u64 << i) / 2 == 1u64 << ((i - 1) as u64) && (1u64 << i)
            != 0)
            by (bit_vector)
            requires
                0 < i < 64,
        ;
        lemma_popcnt_single((i - 1) as u64);
    }
}

/// A word splits into the part inside a mask and the part outside it.
pub proof fn lemma_popcnt_split(x: u64, m: u64)
    ensures
        popcnt(x) == popcnt(x & m) + popcnt(x & !m),
{
    assert((x & m) & (x & !m) == 0 && ((x & m) | (x & !m)) == x) by (bit_vector);
    lemma_popcnt_disjoint(x & m, x & !m);
}

/// Popcount is monotone under taking a subset of the bits.
pub proof fn lemma_popcnt_subset(x: u64, y: u64)
    requires
        x & y == x,
    ensures
        popcnt(x) <= popcnt(y),
{
    assert(y & x == x && y & !x == y & !x) by (bit_vector)
        requires
            x & y == x,
    ;
    lemma_popcnt_split(y, x);
}

/// A nonzero word has a positive popcount.
pub proof fn lemma_popcnt_pos(x: u64)
    requires
        x != 0,
    ensures
        popcnt(x) >= 1,
    decreases x,
{
    if x % 2 == 0 {
        lemma_popcnt_pos(x / 2);
    }
}

proof fn lemma_popcnt_bound_rec(x: u64, k: nat)
    requires
        (x as nat) < vstd::arithmetic::power2::pow2(k),
    ensures
        popcnt(x) <= k,
    decreases k,
{
    vstd::arithmetic::power2::lemma_pow2_pos(k);
    if x == 0 {
    } else {
        if k == 0 {
            assert(vstd::arithmetic::power2::pow2(0) == 1) by {
                vstd::arithmetic::power2::lemma2_to64();
            }
        } else {
            assert(vstd::arithmetic::power2::pow2(k) == 2 * vstd::arithmetic::power2::pow2(
                (k - 1) as nat,
            )) by {
                vstd::arithmetic::power2::lemma_pow2_unfold(k);
            }
            lemma_popcnt_bound_rec(x / 2, (k - 1) as nat);
        }
    }
}

/// No 64-bit word has more than 64 set bits.
pub proof fn lemma_popcnt_max(x: u64)
    ensures
        popcnt(x) <= 64,
{
    assert((x as nat) < vstd::arithmetic::power2::pow2(64)) by {
        vstd::arithmetic::power2::lemma2_to64_rest();
    }
    lemma_popcnt_bound_rec(x, 64);
}

/// Counts the set bits of `b`.
pub fn popcount(b: u64) -> (r: u32)
    ensures
        r == popcnt(b),
        r <= 64,
{
    proof {
        lemma_popcnt_max(b);
    }
    let mut x: u64 = b;
    let mut count: u32 = 0;
    while x != 0
        invariant
            count + popcnt(x) == popcnt(b),
            popcnt(b) <= 64,
        decreases x,
    {
        count = count + (x % 2) as u32;
        proof {
            lemma_popcnt_pos(x);
        }
        x = x / 2;
    }
    count
}

} // verus!
