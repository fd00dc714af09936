//! The bitboard primitive: a `u64` in which bit *n* stands for square *n*.
//! Spec-level bit access, single-bit updates, population count, and the
//! lemmas that connect them to the machine operations.

use vstd::prelude::*;
use vstd::arithmetic::power2::pow2;
use vstd::arithmetic::power2::lemma2_to64;
use vstd::arithmetic::power2::lemma_pow2_unfold;
use vstd::std_specs::bits::u64_trailing_zeros;
use vstd::std_specs::bits::axiom_u64_trailing_zeros;

verus! {

/// True when bit `i` of `b` is set; false off the board.
pub open spec fn bit64(b: u64, i: int) -> bool {
    0 <= i < 64 && (b >> (i as u64)) & 1u64 == 1u64
}

/// The mask with exactly bit `i` set, for `i` on the board.
pub open spec fn mask1(i: int) -> u64 {
    1u64 << (i as u64)
}

/// `b` with bit `i` set.
pub open spec fn set_bit(b: u64, i: int) -> u64 {
    b | mask1(i)
}

/// `b` with bit `i` cleared.
pub open spec fn clear_bit(b: u64, i: int) -> u64 {
    b & !mask1(i)
}

/// The number of set bits of `b`.
pub open spec fn popcnt(b: u64) -> nat
    decreases b,
{
    if b == 0 {
        0
    } else {
        ((b % 2) + popcnt(b / 2)) as nat
    }
}

/// The zero word has no set bit.
pub broadcast proof fn lemma_bit_zero(i: int)
    ensures
        !#[trigger] bit64(0u64, i),
{
    if 0 <= i < 64 {
        let iu = i as u64;
        assert((0u64 >> iu) & 1u64 == 0u64) by (bit_vector);
    }
}

/// Bits of a disjunction: a bit of `a | b` is a bit of `a` or one of `b`.
pub broadcast proof fn lemma_bit_or(a: u64, b: u64, i: int)
    ensures
        #[trigger] bit64(a | b, i) <==> bit64(a, i) || bit64(b, i),
{
    if 0 <= i < 64 {
        let iu = i as u64;
        assert((((a | b) >> iu) & 1u64 == 1u64) <==> (((a >> iu) & 1u64 == 1u64) || ((b >> iu)
            & 1u64 == 1u64))) by (bit_vector);
    }
}

/// Bits of a conjunction.
pub broadcast proof fn lemma_bit_and(a: u64, b: u64, i: int)
    ensures
        #[trigger] bit64(a & b, i) <==> bit64(a, i) && bit64(b, i),
{
    if 0 <= i < 64 {
        let iu = i as u64;
        assert((((a & b) >> iu) & 1u64 == 1u64) <==> (((a >> iu) & 1u64 == 1u64) && ((b >> iu)
            & 1u64 == 1u64))) by (bit_vector);
    }
}

/// Bits of a complement.
pub broadcast proof fn lemma_bit_not(a: u64, i: int)
    ensures
        #[trigger] bit64(!a, i) <==> 0 <= i < 64 && !bit64(a, i),
{
    if 0 <= i < 64 {
        let iu = i as u64;
        assert((((!a) >> iu) & 1u64 == 1u64) <==> !((a >> iu) & 1u64 == 1u64)) by (bit_vector)
            requires
                iu < 64,
        ;
    }
}

/// The single-bit mask has exactly one set bit.
pub broadcast proof fn lemma_bit_mask1(i: int, j: int)
    requires
        0 <= i < 64,
    ensures
        #[trigger] bit64(mask1(i), j) <==> i == j,
{
    if 0 <= j < 64 {
        let iu = i as u64;
        let ju = j as u64;
        assert((((1u64 << iu) >> ju) & 1u64 == 1u64) <==> iu == ju) by (bit_vector)
            requires
                iu < 64 && ju < 64,
        ;
    }
}

/// Testing a square with a single-bit mask reads that bit.
pub broadcast proof fn lemma_mask_test(b: u64, i: int)
    requires
        0 <= i < 64,
    ensures
        #[trigger] (b & mask1(i)) != 0 <==> bit64(b, i),
{
    let iu = i as u64;
    assert((b & (1u64 << iu) != 0) <==> ((b >> iu) & 1u64 == 1u64)) by (bit_vector)
        requires
            iu < 64,
    ;
}

/// Bits after setting bit `i`.
pub broadcast proof fn lemma_set_bit(b: u64, i: int, j: int)
    requires
        0 <= i < 64,
    ensures
        #[trigger] bit64(set_bit(b, i), j) <==> (j == i || bit64(b, j)),
{
    if 0 <= j < 64 {
        let iu = i as u64;
        let ju = j as u64;
        assert((((b | (1u64 << iu)) >> ju) & 1u64 == 1u64) <==> (ju == iu || (b >> ju) & 1u64
            == 1u64)) by (bit_vector)
            requires
                iu < 64 && ju < 64,
        ;
    }
}

/// Bits after clearing bit `i`.
pub broadcast proof fn lemma_clear_bit(b: u64, i: int, j: int)
    requires
        0 <= i < 64,
    ensures
        #[trigger] bit64(clear_bit(b, i), j) <==> (j != i && bit64(b, j)),
{
    if 0 <= j < 64 {
        let iu = i as u64;
        let ju = j as u64;
        assert((((b & !(1u64 << iu)) >> ju) & 1u64 == 1u64) <==> (ju != iu && (b >> ju) & 1u64
            == 1u64)) by (bit_vector)
            requires
                iu < 64 && ju < 64,
        ;
    }
}

/// Two words with the same bits are equal.
pub proof fn lemma_bit_ext(a: u64, b: u64)
    requires
        forall|i: int| bit64(a, i) == bit64(b, i),
    ensures
        a == b,
{
    if a != b {
        let c = a ^ b;
        assert(c != 0) by (bit_vector)
            requires
                a != b,
                c == a ^ b,
        ;
        axiom_u64_trailing_zeros(c);
        let t = u64_trailing_zeros(c) as u64;
        assert(((a >> t) & 1u64 == 1u64) != ((b >> t) & 1u64 == 1u64)) by (bit_vector)
            requires
                t < 64,
                (c >> t) & 1u64 == 1u64,
                c == a ^ b,
        ;
        assert(bit64(a, t as int) == bit64(b, t as int));
    }
}

/// What `trailing_zeros` finds for a nonzero word: the lowest set bit, and
/// how `b & (b - 1)` removes exactly that bit.
pub proof fn lemma_lowest_bit(b: u64)
    requires
        b != 0,
    ensures
        0 <= u64_trailing_zeros(b) < 64,
        bit64(b, u64_trailing_zeros(b) as int),
        forall|j: int| 0 <= j < u64_trailing_zeros(b) ==> !bit64(b, j),
        b & ((b - 1) as u64) == clear_bit(b, u64_trailing_zeros(b) as int),
        b & ((b - 1) as u64) < b,
{
    axiom_u64_trailing_zeros(b);
    let t = u64_trailing_zeros(b) as u64;
    assert(forall|j: u64| 0 <= j < t ==> #[trigger] (b >> j) & 1u64 == 0u64);
    assert forall|j: int| 0 <= j < t implies !bit64(b, j) by {
        assert((b >> (j as u64)) & 1u64 == 0u64);
    }
    assert(b & ((b - 1) as u64) == b & !(1u64 << t) && b & ((b - 1) as u64) < b)
        by (bit_vector)
        requires
            t < 64,
            (b >> t) & 1u64 == 1u64,
            b << ((64 - t) as u64) == 0,
            b != 0,
    ;
}

/// `popcnt` satisfies its dividing step for every word, the zero case included.
pub proof fn lemma_popcnt_unfold(b: u64)
    ensures
        popcnt(b) == b % 2 + popcnt(b / 2),
{
    if b == 0 {
    }
}

/// An upper bound for the population count of words below a power of two.
proof fn lemma_popcnt_pow2_bound(b: u64, n: nat)
    requires
        b < pow2(n),
    ensures
        popcnt(b) <= n,
    decreases n,
{
    if n == 0 {
        assert(pow2(0) == 1) by {
            lemma2_to64();
        }
    } else {
        lemma_pow2_unfold(n);
        assert(b / 2 < pow2((n - 1) as nat));
        lemma_popcnt_pow2_bound(b / 2, (n - 1) as nat);
        lemma_popcnt_unfold(b);
    }
}

/// No word has more than 64 set bits.
pub proof fn lemma_popcnt_bound(b: u64)
    ensures
        popcnt(b) <= 64,
{
    lemma2_to64();
    assert(pow2(64) == 0x10000000000000000) by {
        vstd::arithmetic::power2::lemma_pow2_adds(32, 32);
    }
    lemma_popcnt_pow2_bound(b, 64);
}

/// Clearing a set bit lowers the population count by one.
pub proof fn lemma_popcnt_clear(b: u64, i: int)
    requires
        bit64(b, i),
    ensures
        popcnt(b) == popcnt(clear_bit(b, i)) + 1,
    decreases i,
{
    let iu = i as u64;
    if i == 0 {
        assert(b % 2 == 1 && (b & !(1u64 << 0u64)) % 2 == 0 && (b & !(1u64 << 0u64)) / 2 == b
            / 2) by (bit_vector)
            requires
                (b >> 0u64) & 1u64 == 1u64,
        ;
        lemma_popcnt_unfold(b);
        lemma_popcnt_unfold(clear_bit(b, 0));
    } else {
        assert((b / 2 >> ((iu - 1) as u64)) & 1u64 == 1u64 && (b & !(1u64 << iu)) / 2 == (b / 2)
            & !(1u64 << ((iu - 1) as u64)) && (b & !(1u64 << iu)) % 2 == b % 2) by (bit_vector)
            requires
                1 <= iu < 64,
                (b >> iu) & 1u64 == 1u64,
        ;
        assert(bit64(b / 2, i - 1));
        lemma_popcnt_clear(b / 2, i - 1);
        lemma_popcnt_unfold(b);
        lemma_popcnt_unfold(clear_bit(b, i));
    }
}

/// Setting a clear bit raises the population count by one.
pub proof fn lemma_popcnt_set(b: u64, i: int)
    requires
        0 <= i < 64,
        !bit64(b, i),
    ensures
        popcnt(set_bit(b, i)) == popcnt(b) + 1,
{
    let iu = i as u64;
    assert(((b | (1u64 << iu)) >> iu) & 1u64 == 1u64 && (b | (1u64 << iu)) & !(1u64 << iu)
        == b) by (bit_vector)
        requires
            iu < 64,
            (b >> iu) & 1u64 != 1u64,
    ;
    lemma_popcnt_clear(set_bit(b, i), i);
}

/// Counts the set bits of `b` by clearing the lowest set bit until none is left.
pub fn count_bits(b: u64) -> (r: u32)
    ensures
        r == popcnt(b),
{
    let mut rest: u64 = b;
    let mut count: u32 = 0;
    proof {
        lemma_popcnt_bound(b);
    }
    while rest != 0
        invariant
            popcnt(b) == count + popcnt(rest),
            popcnt(b) <= 64,
            count <= 64,
        decreases rest,
    {
        proof {
            lemma_lowest_bit(rest);
            lemma_popcnt_clear(rest, u64_trailing_zeros(rest) as int);
            lemma_popcnt_bound(rest);
        }
        rest = rest & (rest - 1);
        count = count + 1;
    }
    count
}

} // verus!
