//! Strides and the index arithmetic shared by the stage kernels.

use vstd::prelude::*;
use vstd::arithmetic::div_mod::*;
use vstd::arithmetic::power2::*;
use vstd::bits::*;

verus! {

/// The distance between the inputs of one butterfly at stage `idx`:
/// `unit` shifted right by `idx` places.
pub open spec fn stride_of(unit: int, idx: nat) -> int {
    unit / (pow2(idx) as int)
}

/// Stage `idx` leaves `unit` a stride of at least one that divides `unit`
/// and is a power of two, so that a block start and an offset share no bit.
///
/// Every stage of a power of two that leaves a stride is valid.
pub open spec fn valid_stage(unit: int, idx: nat) -> bool {
    &&& stride_of(unit, idx) > 0
    &&& unit % stride_of(unit, idx) == 0
    &&& is_pow2(stride_of(unit, idx))
}

/// A power of two that fits a machine word has an exponent below the word size.
pub proof fn lemma_pow2_fits(j: nat)
    requires
        pow2(j) <= usize::MAX,
    ensures
        j < usize::BITS,
{
    if j >= usize::BITS {
        lemma2_to64();
        lemma2_to64_rest();
        if j > usize::BITS {
            lemma_pow2_strictly_increases(usize::BITS as nat, j);
        }
    }
}

/// The exponent of a power of two.
pub proof fn lemma_exponent(stride: usize) -> (j: nat)
    requires
        is_pow2(stride as int),
    ensures
        stride == pow2(j),
        j < usize::BITS,
{
    is_pow2_equiv(stride as int);
    let j = choose|j: nat| vstd::arithmetic::power::pow(2, j) == stride as int;
    lemma_pow2(j);
    lemma_pow2_fits(j);
    j
}

/// A stage that leaves a stride has an index below the word size, and its
/// stride is no more than `unit`.
pub proof fn lemma_stage(unit: usize, idx: nat)
    requires
        stride_of(unit as int, idx) > 0,
    ensures
        idx < usize::BITS,
        stride_of(unit as int, idx) <= unit,
{
    lemma_pow2_pos(idx);
    if pow2(idx) > unit {
        lemma_basic_div(unit as int, pow2(idx) as int);
    }
    lemma_pow2_fits(idx);
    lemma_div_is_ordered_by_denominator(unit as int, 1, pow2(idx) as int);
}

/// Every stage of a power of two that leaves a stride is valid.
pub proof fn lemma_pow2_stage(unit: int, idx: nat)
    requires
        is_pow2(unit),
        stride_of(unit, idx) > 0,
    ensures
        valid_stage(unit, idx),
{
    is_pow2_equiv(unit);
    let k = choose|k: nat| vstd::arithmetic::power::pow(2, k) == unit;
    lemma_pow2(k);
    lemma_pow2_pos(idx);
    if idx > k {
        lemma_pow2_strictly_increases(k, idx);
        lemma_basic_div(unit, pow2(idx) as int);
    }
    let j = (k - idx) as nat;
    lemma_pow2_subtracts(idx, k);
    lemma_pow2_adds(j, idx);
    lemma_mod_multiples_basic(pow2(idx) as int, pow2(j) as int);
    assert(pow2(j) * pow2(idx) == pow2(idx) * pow2(j)) by (nonlinear_arith);
    lemma_pow2(j);
    is_pow2_equiv(pow2(j) as int);
}

/// A block that starts below `unit` ends at or below it.
pub proof fn lemma_block_fits(i: int, stride: int, unit: int)
    requires
        stride > 0,
        0 <= i < unit,
        i % stride == 0,
        unit % stride == 0,
    ensures
        i + stride <= unit,
        (i + stride) % stride == 0,
{
    lemma_fundamental_div_mod(i, stride);
    lemma_fundamental_div_mod(unit, stride);
    let a = i / stride;
    let b = unit / stride;
    assert(a < b) by (nonlinear_arith)
        requires
            stride > 0,
            stride * a < stride * b,
    ;
    assert(stride * (a + 1) <= stride * b) by (nonlinear_arith)
        requires
            stride > 0,
            a + 1 <= b,
    ;
    assert(stride * (a + 1) == stride * a + stride) by (nonlinear_arith);
    lemma_mod_multiples_basic(a + 1, stride);
    assert((a + 1) * stride == stride * (a + 1)) by (nonlinear_arith);
}

/// The block start of an index: it is a multiple of the stride, and its block
/// ends at or below `unit`.
pub proof fn lemma_block_start(o: int, stride: int, unit: int)
    requires
        stride > 0,
        0 <= o < unit,
        unit % stride == 0,
    ensures
        0 <= o - o % stride <= o,
        (o - o % stride) % stride == 0,
        (o - o % stride) + stride <= unit,
        o % stride < stride,
{
    lemma_fundamental_div_mod(o, stride);
    lemma_mod_multiples_basic(o / stride, stride);
    assert((o / stride) * stride == stride * (o / stride)) by (nonlinear_arith);
    lemma_block_fits(o - o % stride, stride, unit);
}

/// A multiple of a block start is a block start.
pub proof fn lemma_scaled_block(c: int, i: int, stride: int)
    requires
        stride > 0,
        i % stride == 0,
    ensures
        (c * i) % stride == 0,
{
    lemma_fundamental_div_mod(i, stride);
    lemma_mod_multiples_basic(c * (i / stride), stride);
    assert((c * (i / stride)) * stride == c * (stride * (i / stride))) by (nonlinear_arith);
}

/// An index that lies `r` above twice a block start, with `r` below twice the
/// stride, has offset `r` in blocks of twice the stride.
pub proof fn lemma_doubled_offset(i: int, r: int, stride: int)
    requires
        stride > 0,
        i % stride == 0,
        0 <= r < 2 * stride,
    ensures
        (2 * i + r) % (2 * stride) == r,
{
    lemma_fundamental_div_mod(i, stride);
    assert(2 * i + r == (2 * stride) * (i / stride) + r) by (nonlinear_arith)
        requires
            i == stride * (i / stride),
    ;
    lemma_fundamental_div_mod_converse(2 * i + r, 2 * stride, i / stride, r);
}

/// Moving an index up by a whole number of blocks keeps its offset.
pub proof fn lemma_shifted_offset(o: int, unit: int, stride: int)
    requires
        stride > 0,
        unit % stride == 0,
    ensures
        (o + unit) % stride == o % stride,
{
    lemma_fundamental_div_mod(unit, stride);
    lemma_mod_multiples_vanish(unit / stride, o, stride);
}

/// Inside a block of a power-of-two stride, joining the block start and the
/// offset with a bitwise or is adding them, and the offset is the remainder.
pub proof fn lemma_block_offset(i: usize, off: usize, stride: usize)
    requires
        is_pow2(stride as int),
        i % stride == 0,
        off < stride,
        i + off <= usize::MAX,
    ensures
        i | off == i + off,
        (i + off) % (stride as int) == off,
{
    let j = lemma_exponent(stride);
    let mask = low_bits_mask(j) as usize;
    lemma_usize_low_bits_mask_is_mod(i, j);
    lemma_usize_low_bits_mask_is_mod(off, j);
    lemma_small_mod(off as nat, stride as nat);
    assert(i | off == i + off) by (bit_vector)
        requires
            i & mask == 0,
            off & mask == off,
    ;
    lemma_fundamental_div_mod(i as int, stride as int);
    lemma_fundamental_div_mod_converse(i + off, stride as int, i as int / stride as int, off as int);
}

/// Masking with a power-of-two stride less one splits an index into its
/// block start and its offset.
pub proof fn lemma_mask_split(o: usize, stride: usize)
    requires
        is_pow2(stride as int),
    ensures
        o & ((stride - 1) as usize) == o % stride,
        o & !((stride - 1) as usize) == o - o % stride,
{
    let j = lemma_exponent(stride);
    let mask = (stride - 1) as usize;
    lemma_pow2_pos(j);
    lemma_usize_low_bits_mask_is_mod(o, j);
    assert(low_bits_mask(j) as usize == mask);
    assert(o & !mask == o - (o & mask)) by (bit_vector);
}

/// How the strides of the halves relate to the stride of the quarters: at
/// the same stage a half has twice the stride, one stage on it has the same.
pub proof fn lemma_half_strides(n: int, idx: nat)
    requires
        n >= 0,
        n % 4 == 0,
        valid_stage(n / 2, idx),
        valid_stage(n / 2, idx + 1),
    ensures
        stride_of(n / 2, idx) == 2 * stride_of(n / 4, idx),
        stride_of(n / 2, idx + 1) == stride_of(n / 4, idx),
{
    let d = pow2(idx) as int;
    lemma_pow2_pos(idx);
    lemma_pow2_unfold(idx + 1);
    lemma_div_denominator(n / 2, 2, d);
    lemma_div_denominator(n / 2, d, 2);
    assert(2 * d == d * 2);
    let wide = stride_of(n / 2, idx);
    assert(stride_of(n / 2, idx + 1) == wide / 2);
    assert(wide % 2 == 0) by {
        reveal(is_pow2);
    }
}

/// Whether `n` is a power of two.
pub fn is_power_of_two(n: usize) -> (r: bool)
    ensures
        r == is_pow2(n as int),
{
    if n == 0 {
        proof {
            reveal(is_pow2);
        }
        return false;
    }
    let mut m = n;
    while m % 2 == 0
        invariant
            m > 0,
            is_pow2(m as int) == is_pow2(n as int),
        decreases m,
    {
        proof {
            reveal(is_pow2);
        }
        m = m / 2;
    }
    proof {
        reveal(is_pow2);
    }
    m == 1
}

/// Whether stage `idx` is a valid stage of `unit`.
pub fn stage_is_valid(unit: usize, idx: u32) -> (r: bool)
    ensures
        r == valid_stage(unit as int, idx as nat),
{
    if idx >= usize::BITS {
        proof {
            if stride_of(unit as int, idx as nat) > 0 {
                lemma_stage(unit, idx as nat);
            }
        }
        return false;
    }
    let shift = idx as usize;
    proof {
        lemma_usize_shr_is_div(unit, shift);
    }
    let stride = unit >> shift;
    stride > 0 && unit % stride == 0 && is_power_of_two(stride)
}

} // verus!
