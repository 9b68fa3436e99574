//! The radix-2 stage: one pass that combines the samples in pairs.
//!
//! The pass is given twice, once walking blocks and offsets and once
//! splitting each output index with a mask; the two are proved to agree.

use vstd::prelude::*;
use vstd::bits::*;
use vstd::arithmetic::power2::is_pow2;
use crate::index::{
    lemma_block_fits, lemma_block_offset, lemma_block_start, lemma_mask_split, lemma_scaled_block,
    lemma_stage, stage_is_valid, stride_of, valid_stage,
};
use crate::sample::Sample;

verus! {

/// The sample at position `p` after a radix-2 pass with the given stride.
///
/// Position `p` and position `p + half` hold the sum and the difference of
/// one butterfly. Its inputs lie `stride` apart in the source, in the block
/// that starts at twice the output block's start, and the second input is
/// first turned by the twiddle at the output block's start.
pub open spec fn radix2_value<T: Sample>(
    half: int,
    stride: int,
    twiddle: Seq<T>,
    src: Seq<T>,
    p: int,
) -> T {
    let o = if p < half { p } else { p - half };
    let off = o % stride;
    let i = o - off;
    let a = src[2 * i + off];
    let b = src[2 * i + off + stride].mul_spec(twiddle[i]);
    if p < half {
        a.add_spec(b)
    } else {
        a.sub_spec(b)
    }
}

/// The destination buffer after the radix-2 pass of stage `idx` over `src`.
pub open spec fn radix2_stage<T: Sample>(n: int, idx: nat, twiddle: Seq<T>, src: Seq<T>) -> Seq<T> {
    Seq::new(n as nat, |p: int| radix2_value(n / 2, stride_of(n / 2, idx), twiddle, src, p))
}

/// The sample at position `p` after a radix-2 pass, with the output index
/// split by masking: the bits below the stride are the offset, the bits from
/// the stride up are the block start.
pub open spec fn radix2_value_masked<T: Sample>(
    half: usize,
    stride: usize,
    twiddle: Seq<T>,
    src: Seq<T>,
    p: usize,
) -> T {
    let o = if p < half { p } else { (p - half) as usize };
    let mask = (stride - 1) as usize;
    let i = o & !mask;
    let off = o & mask;
    let a = src[2 * i + off];
    let b = src[2 * i + off + stride].mul_spec(twiddle[i as int]);
    if p < half {
        a.add_spec(b)
    } else {
        a.sub_spec(b)
    }
}

/// The destination buffer after the mask-addressed radix-2 pass of stage `idx`.
pub open spec fn radix2_stage_masked<T: Sample>(
    n: usize,
    idx: nat,
    twiddle: Seq<T>,
    src: Seq<T>,
) -> Seq<T> {
    Seq::new(
        n as nat,
        |p: int|
            radix2_value_masked(
                (n / 2) as usize,
                stride_of(n as int / 2, idx) as usize,
                twiddle,
                src,
                p as usize,
            ),
    )
}

/// What a radix-2 pass asks of its arguments: `n` is even, `idx` is a valid
/// stage of `n / 2`, both buffers hold `n` samples, and the twiddle table
/// reaches the start of the last block.
pub open spec fn radix2_inputs_ok(
    n: usize,
    twiddle_len: nat,
    idx: u32,
    src_len: nat,
    dst_len: nat,
) -> bool {
    &&& n % 2 == 0
    &&& valid_stage(n as int / 2, idx as nat)
    &&& src_len == n
    &&& dst_len == n
    &&& twiddle_len > n / 2 - stride_of(n as int / 2, idx as nat)
}

/// Tests what a radix-2 pass asks of its arguments, given the lengths of
/// the twiddle table and of the two buffers. A driver calls this once for
/// each stage of its plan, before the passes run.
pub fn inputs_valid(
    n: usize,
    twiddle_len: usize,
    idx: u32,
    src_len: usize,
    dst_len: usize,
) -> (ok: bool)
    ensures
        ok == radix2_inputs_ok(n, twiddle_len as nat, idx, src_len as nat, dst_len as nat),
{
    if n % 2 != 0 || src_len != n || dst_len != n {
        return false;
    }
    if !stage_is_valid(n / 2, idx) {
        return false;
    }
    proof {
        lemma_stage((n / 2) as usize, idx as nat);
        lemma_usize_shr_is_div((n / 2) as usize, idx as usize);
    }
    let stride = (n / 2) >> (idx as usize);
    twiddle_len > n / 2 - stride
}

/// One radix-2 pass from `src` into `dst`, block by block.
///
/// For each block of `stride = (n / 2) >> idx` outputs one twiddle is read,
/// and each offset in the block yields one butterfly.
pub fn fft_phase<T: Sample>(n: usize, twiddle: &[T], idx: u32, src: &[T], dst: &mut [T])
    requires
        radix2_inputs_ok(n, twiddle@.len(), idx, src@.len(), old(dst)@.len()),
    ensures
        final(dst)@ == radix2_stage(n as int, idx as nat, twiddle@, src@),
{
    let half = n / 2;
    proof {
        lemma_stage(half, idx as nat);
    }
    let shift = idx as usize;
    let stride = half >> shift;
    proof {
        lemma_usize_shr_is_div(half, shift);
    }
    let ghost value = |p: int| radix2_value(half as int, stride as int, twiddle@, src@, p);
    let mut i: usize = 0;
    while i < half
        invariant
            n == 2 * half,
            is_pow2(stride as int),
            stride > 0,
            half % stride == 0,
            i % stride == 0,
            i <= half,
            src@.len() == n,
            dst@.len() == n,
            twiddle@.len() > half - stride,
            value == (|p: int| radix2_value(half as int, stride as int, twiddle@, src@, p)),
            forall|p: int| 0 <= p < i ==> dst@[p] == #[trigger] value(p),
            forall|p: int| 0 <= p < i ==> dst@[p + half] == #[trigger] value(p + half),
        decreases half - i,
    {
        proof {
            lemma_block_fits(i as int, stride as int, half as int);
            vstd::arithmetic::power2::lemma2_to64();
            lemma_usize_shl_is_mul(i, 1);
            lemma_scaled_block(2, i as int, stride as int);
        }
        let ii = i << 1usize;
        let t = twiddle[i];
        let mut off: usize = 0;
        while off < stride
            invariant
                n == 2 * half,
                is_pow2(stride as int),
                stride > 0,
                i % stride == 0,
                ii == 2 * i,
                ii % stride == 0,
                i + stride <= half,
                off <= stride,
                src@.len() == n,
                dst@.len() == n,
                i < twiddle@.len(),
                t == twiddle@[i as int],
                value == (|p: int| radix2_value(half as int, stride as int, twiddle@, src@, p)),
                forall|p: int| 0 <= p < i + off ==> dst@[p] == #[trigger] value(p),
                forall|p: int| 0 <= p < i + off ==> dst@[p + half] == #[trigger] value(p + half),
            decreases stride - off,
        {
            proof {
                lemma_block_offset(i, off, stride);
                lemma_block_offset(ii, off, stride);
            }
            let i1 = ii | off;
            let o = i | off;
            let a = src[i1];
            let b = src[i1 + stride].mul(t);
            dst[o] = a.add(b);
            dst[o + half] = a.sub(b);
            off += 1;
        }
        i += stride;
    }
    assert forall|p: int| 0 <= p < n implies #[trigger] dst@[p] == value(p) by {
        if p >= half {
            assert(dst@[(p - half) + half] == value((p - half) + half));
        }
    }
    assert(dst@ =~= radix2_stage(n as int, idx as nat, twiddle@, src@));
}

/// One radix-2 pass from `src` into `dst`, output by output.
///
/// Each output index below `n / 2` is split with `mask = stride - 1` into
/// its block start and its offset, from which the inputs are found. The
/// result is that of `fft_phase`, sample for sample.
pub fn fft_phase_masked<T: Sample>(n: usize, twiddle: &[T], idx: u32, src: &[T], dst: &mut [T])
    requires
        radix2_inputs_ok(n, twiddle@.len(), idx, src@.len(), old(dst)@.len()),
    ensures
        final(dst)@ == radix2_stage_masked(n, idx as nat, twiddle@, src@),
        final(dst)@ == radix2_stage(n as int, idx as nat, twiddle@, src@),
{
    let half = n / 2;
    proof {
        lemma_stage(half, idx as nat);
    }
    let shift = idx as usize;
    let stride = half >> shift;
    proof {
        lemma_usize_shr_is_div(half, shift);
    }
    let mask = stride - 1;
    let ghost value = |p: int| radix2_value_masked(half, stride, twiddle@, src@, p as usize);
    let mut o: usize = 0;
    while o < half
        invariant
            n == 2 * half,
            is_pow2(stride as int),
            stride > 0,
            half % stride == 0,
            mask == stride - 1,
            o <= half,
            src@.len() == n,
            dst@.len() == n,
            twiddle@.len() > half - stride,
            value == (|p: int| radix2_value_masked(half, stride, twiddle@, src@, p as usize)),
            forall|p: int| 0 <= p < o ==> dst@[p] == #[trigger] value(p),
            forall|p: int| 0 <= p < o ==> dst@[p + half] == #[trigger] value(p + half),
        decreases half - o,
    {
        let i = o & !mask;
        let off = o & mask;
        proof {
            lemma_mask_split(o, stride);
            lemma_block_start(o as int, stride as int, half as int);
            vstd::arithmetic::power2::lemma2_to64();
            lemma_usize_shl_is_mul(i, 1);
            lemma_scaled_block(2, i as int, stride as int);
            lemma_block_offset((2 * i) as usize, off, stride);
        }
        let i1 = (i << 1usize) | off;
        let t = twiddle[i];
        let a = src[i1];
        let b = src[i1 + stride].mul(t);
        dst[o] = a.add(b);
        dst[o + half] = a.sub(b);
        o += 1;
    }
    assert forall|p: int| 0 <= p < n implies #[trigger] dst@[p] == value(p) by {
        if p >= half {
            assert(dst@[(p - half) + half] == value((p - half) + half));
        }
    }
    assert(dst@ =~= radix2_stage_masked(n, idx as nat, twiddle@, src@));
    proof {
        lemma_addressing_agrees(n, idx, twiddle@, src@);
    }
}

/// Both ways of addressing give the same pass: on arguments that a radix-2
/// pass accepts, the mask-addressed stage equals the block-addressed one.
pub proof fn lemma_addressing_agrees<T: Sample>(n: usize, idx: u32, twiddle: Seq<T>, src: Seq<T>)
    requires
        radix2_inputs_ok(n, twiddle.len(), idx, src.len(), n as nat),
    ensures
        radix2_stage_masked(n, idx as nat, twiddle, src) == radix2_stage(
            n as int,
            idx as nat,
            twiddle,
            src,
        ),
{
    let half = (n / 2) as usize;
    lemma_stage(half, idx as nat);
    let stride = stride_of(half as int, idx as nat) as usize;
    assert forall|p: int| 0 <= p < n implies radix2_value_masked(
        half,
        stride,
        twiddle,
        src,
        p as usize,
    ) == radix2_value(half as int, stride as int, twiddle, src, p) by {
        let o = if p < half { p as usize } else { (p - half) as usize };
        lemma_mask_split(o, stride);
    }
    assert(radix2_stage_masked(n, idx as nat, twiddle, src) =~= radix2_stage(
        n as int,
        idx as nat,
        twiddle,
        src,
    ));
}

} // verus!
