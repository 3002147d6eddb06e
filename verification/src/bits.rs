use vstd::prelude::*;

verus! {

/// Whether bit `i` (counting from the least significant bit) of `x` is set.
pub open spec fn has_bit(x: u128, i: int) -> bool {
    0 <= i < 128 && (x >> (i as u128)) & 1u128 == 1u128
}

/// The number of set bits of `x`.
pub open spec fn bit_count(x: u128) -> nat
    decreases x,
{
    if x == 0 {
        0
    } else {
        (x % 2) as nat + bit_count(x / 2)
    }
}

/// The value whose only set bit is bit `i`.
pub open spec fn single_bit(i: int) -> u128 {
    1u128 << (i as u128)
}

pub proof fn lemma_has_bit_or(a: u128, b: u128, i: int)
    ensures
        has_bit(a | b, i) == (has_bit(a, i) || has_bit(b, i)),
{
    if 0 <= i < 128 {
        let k = i as u128;
        assert(((a | b) >> k) & 1u128 == 1u128 <==> ((a >> k) & 1u128 == 1u128 || (b >> k) & 1u128
            == 1u128)) by (bit_vector)
            requires
                k < 128,
        ;
    }
}

pub proof fn lemma_has_bit_and(a: u128, b: u128, i: int)
    ensures
        has_bit(a & b, i) == (has_bit(a, i) && has_bit(b, i)),
{
    if 0 <= i < 128 {
        let k = i as u128;
        assert(((a & b) >> k) & 1u128 == 1u128 <==> ((a >> k) & 1u128 == 1u128 && (b >> k) & 1u128
            == 1u128)) by (bit_vector)
            requires
                k < 128,
        ;
    }
}

pub proof fn lemma_has_bit_not(a: u128, i: int)
    requires
        0 <= i < 128,
    ensures
        has_bit(!a, i) == !has_bit(a, i),
{
    let k = i as u128;
    assert(((!a) >> k) & 1u128 == 1u128 <==> !((a >> k) & 1u128 == 1u128)) by (bit_vector)
        requires
            k < 128,
    ;
}

pub proof fn lemma_has_bit_single(k: int, i: int)
    requires
        0 <= k < 128,
    ensures
        has_bit(single_bit(k), i) == (i == k),
{
    if 0 <= i < 128 {
        let kk = k as u128;
        let ii = i as u128;
        assert(((1u128 << kk) >> ii) & 1u128 == 1u128 <==> ii == kk) by (bit_vector)
            requires
                kk < 128,
                ii < 128,
        ;
    }
}

pub proof fn lemma_has_bit_flip(a: u128, k: int, i: int)
    requires
        0 <= k < 128,
    ensures
        has_bit(a ^ single_bit(k), i) == if i == k {
            !has_bit(a, i)
        } else {
            has_bit(a, i)
        },
{
    if 0 <= i < 128 {
        let kk = k as u128;
        let ii = i as u128;
        assert(((a ^ (1u128 << kk)) >> ii) & 1u128 == 1u128 <==> (if ii == kk {
            !((a >> ii) & 1u128 == 1u128)
        } else {
            (a >> ii) & 1u128 == 1u128
        })) by (bit_vector)
            requires
                kk < 128,
                ii < 128,
        ;
    }
}

pub proof fn lemma_has_bit_zero(i: int)
    ensures
        !has_bit(0, i),
{
    if 0 <= i < 128 {
        let k = i as u128;
        assert((0u128 >> k) & 1u128 == 0u128) by (bit_vector);
    }
}

proof fn lemma_nonzero_has_bit_aux(a: u128, hi: u128) -> (i: int)
    requires
        a != 0,
        hi <= 128,
        a >> hi == 0,
    ensures
        0 <= i < hi,
        has_bit(a, i),
    decreases hi,
{
    assert(hi != 0) by (bit_vector)
        requires
            a != 0,
            hi <= 128,
            a >> hi == 0,
    ;
    if a & 1u128 == 1u128 {
        assert(a >> 0u128 == a) by (bit_vector);
        0
    } else {
        let b = a >> 1u128;
        let h = (hi - 1) as u128;
        assert(b != 0 && b >> h == 0) by (bit_vector)
            requires
                a & 1u128 != 1u128,
                a != 0,
                a >> hi == 0,
                b == a >> 1u128,
                h == hi - 1,
                hi >= 1,
        ;
        let j = lemma_nonzero_has_bit_aux(b, h);
        let jj = j as u128;
        assert((a >> (jj + 1)) & 1u128 == 1u128) by (bit_vector)
            requires
                (b >> jj) & 1u128 == 1u128,
                b == a >> 1u128,
                jj < 127,
        ;
        j + 1
    }
}

/// A non-zero value has a set bit.
pub proof fn lemma_nonzero_has_bit(a: u128) -> (i: int)
    requires
        a != 0,
    ensures
        0 <= i < 128,
        has_bit(a, i),
{
    assert(a >> 128u128 == 0) by (bit_vector);
    lemma_nonzero_has_bit_aux(a, 128)
}

/// Two values with the same bits are equal.
pub proof fn lemma_bits_ext(a: u128, b: u128)
    requires
        forall|i: int| 0 <= i < 128 ==> has_bit(a, i) == has_bit(b, i),
    ensures
        a == b,
{
    if a != b {
        assert(a ^ b != 0) by (bit_vector)
            requires
                a != b,
        ;
        let i = lemma_nonzero_has_bit(a ^ b);
        let k = i as u128;
        assert(((a ^ b) >> k) & 1u128 == 1u128 ==> ((a >> k) & 1u128 == 1u128) != ((b >> k) & 1u128
            == 1u128)) by (bit_vector)
            requires
                k < 128,
        ;
        assert(has_bit(a, i) == has_bit(b, i));
    }
}

proof fn lemma_bit_count_below(x: u128, k: nat)
    requires
        (x as int) < vstd::arithmetic::power2::pow2(k),
    ensures
        bit_count(x) <= k,
    decreases k,
{
    if k == 0 {
        vstd::arithmetic::power2::lemma2_to64();
    } else if x != 0 {
        vstd::arithmetic::power2::lemma_pow2_unfold(k);
        lemma_bit_count_below(x / 2, (k - 1) as nat);
    }
}

/// A value has at most 128 set bits.
pub proof fn lemma_bit_count_max(x: u128)
    ensures
        bit_count(x) <= 128,
{
    vstd::arithmetic::power2::lemma2_to64();
    vstd::arithmetic::power2::lemma_pow2_adds(64, 64);
    assert(vstd::arithmetic::power2::pow2(128) == 0x100000000000000000000000000000000int);
    lemma_bit_count_below(x, 128);
}

/// The position of the lowest set bit of `x`, or 128 when `x` is zero:
/// `u128::trailing_zeros` from the standard library (one instruction, where a
/// loop over the bits would slow down move generation, which finds the lowest
/// set bit of a board for every piece and every move).
#[verifier::external_body]
pub(crate) fn u128_trailing_zeros(x: u128) -> (r: u32)
    ensures
        x == 0 ==> r == 128,
        x != 0 ==> r < 128 && has_bit(x, r as int) && forall|j: int|
            0 <= j < r ==> !has_bit(x, j),
{
    x.trailing_zeros()
}

/// The number of set bits of `x` (what `u128::count_ones` computes).
pub(crate) fn u128_count_ones(x: u128) -> (r: u32)
    ensures
        r == bit_count(x),
{
    proof {
        lemma_bit_count_max(x);
    }
    let mut y: u128 = x;
    let mut count: u32 = 0;
    while y != 0
        invariant
            count + bit_count(y) == bit_count(x),
            bit_count(x) <= 128,
        decreases y,
    {
        proof {
            assert(bit_count(y) == (y % 2) as nat + bit_count(y / 2));
        }
        count = count + (y % 2) as u32;
        y = y / 2;
    }
    count
}

} // verus!
