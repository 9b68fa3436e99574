//! The radix-4 stage, and the twiddle-free pairwise combine that goes with it.

use vstd::prelude::*;
use vstd::arithmetic::div_mod::lemma_small_mod;
use vstd::arithmetic::power2::{is_pow2, lemma2_to64};
use vstd::bits::*;
use crate::index::{
    lemma_block_fits, lemma_block_offset, lemma_scaled_block, lemma_stage, stage_is_valid,
    stride_of, valid_stage,
};
use crate::radix2::{radix2_stage, radix2_value};
use crate::sample::Sample;

verus! {

/// Output `lane` (0 to 3) of the radix-4 butterfly over the four inputs,
/// `b`, `c` and `d` already turned by their twiddles.
///
/// The inputs are paired as `a` with `c` and `b` with `d`; the difference of
/// the second pair is multiplied by `-i` before it is combined.
pub open spec fn butterfly4<T: Sample>(a: T, b: T, c: T, d: T, lane: int) -> T {
    let acp = a.add_spec(c);
    let acm = a.sub_spec(c);
    let bdp = b.add_spec(d);
    let bdm = b.sub_spec(d).div_i_spec();
    if lane == 0 {
        acp.add_spec(bdp)
    } else if lane == 1 {
        acm.add_spec(bdm)
    } else if lane == 2 {
        acp.sub_spec(bdp)
    } else {
        acm.sub_spec(bdm)
    }
}

/// The quarter of the destination that position `p` lies in.
pub open spec fn lane_of(quarter: int, p: int) -> int {
    if p < quarter {
        0
    } else if p < 2 * quarter {
        1
    } else if p < 3 * quarter {
        2
    } else {
        3
    }
}

/// The sample at position `p` after a radix-4 pass with the given stride.
///
/// The four outputs of one butterfly lie `quarter` apart. Its inputs lie
/// `stride` apart in the source, in the block that starts at four times the
/// output block's start `i`; the second, third and fourth are first turned by
/// the twiddles at `i`, `2 * i` and `3 * i`.
pub open spec fn radix4_value<T: Sample>(
    quarter: int,
    stride: int,
    twiddle: Seq<T>,
    src: Seq<T>,
    p: int,
) -> T {
    let lane = lane_of(quarter, p);
    let o = if lane == 0 {
        p
    } else if lane == 1 {
        p - quarter
    } else if lane == 2 {
        p - 2 * quarter
    } else {
        p - 3 * quarter
    };
    let off = o % stride;
    let i = o - off;
    let a = src[4 * i + off];
    let b = src[4 * i + off + stride].mul_spec(twiddle[i]);
    let c = src[4 * i + off + 2 * stride].mul_spec(twiddle[2 * i]);
    let d = src[4 * i + off + 3 * stride].mul_spec(twiddle[3 * i]);
    butterfly4(a, b, c, d, lane)
}

/// The destination buffer after the radix-4 pass of stage `idx` over `src`.
pub open spec fn radix4_stage<T: Sample>(n: int, idx: nat, twiddle: Seq<T>, src: Seq<T>) -> Seq<T> {
    Seq::new(n as nat, |p: int| radix4_value(n / 4, stride_of(n / 4, idx), twiddle, src, p))
}

/// What a radix-4 pass asks of its arguments: `n` is a multiple of four,
/// `idx` is a valid stage of `n / 4`, both buffers hold `n` samples, and the
/// twiddle table reaches three times the start of the last block, the
/// largest index that the pass reads from it.
pub open spec fn radix4_inputs_ok(
    n: usize,
    twiddle_len: nat,
    idx: u32,
    src_len: nat,
    dst_len: nat,
) -> bool {
    &&& n % 4 == 0
    &&& valid_stage(n as int / 4, idx as nat)
    &&& src_len == n
    &&& dst_len == n
    &&& twiddle_len > 3 * (n / 4 - stride_of(n as int / 4, idx as nat))
}

/// Tests what a radix-4 pass asks of its arguments, given the lengths of
/// the twiddle table and of the two buffers. A driver calls this once for
/// each stage of its plan, before the passes run.
pub fn inputs_valid(
    n: usize,
    twiddle_len: usize,
    idx: u32,
    src_len: usize,
    dst_len: usize,
) -> (ok: bool)
    ensures
        ok == radix4_inputs_ok(n, twiddle_len as nat, idx, src_len as nat, dst_len as nat),
{
    if n % 4 != 0 || src_len != n || dst_len != n {
        return false;
    }
    if !stage_is_valid(n / 4, idx) {
        return false;
    }
    proof {
        lemma_stage((n / 4) as usize, idx as nat);
        lemma_usize_shr_is_div((n / 4) as usize, idx as usize);
    }
    let quarter = n / 4;
    let stride = quarter >> (idx as usize);
    // `quarter - stride` is below `n / 4`, so its triple fits.
    twiddle_len > 3 * (quarter - stride)
}

/// One radix-4 pass from `src` into `dst`.
///
/// For each block of `stride = (n / 4) >> idx` outputs three twiddles are
/// read, and each offset in the block yields one four-point butterfly.
pub fn fft_phase<T: Sample>(n: usize, twiddle: &[T], idx: u32, src: &[T], dst: &mut [T])
    requires
        radix4_inputs_ok(n, twiddle@.len(), idx, src@.len(), old(dst)@.len()),
    ensures
        final(dst)@ == radix4_stage(n as int, idx as nat, twiddle@, src@),
{
    let quarter = n / 4;
    proof {
        lemma_stage(quarter, idx as nat);
    }
    let shift = idx as usize;
    let stride = quarter >> shift;
    proof {
        lemma_usize_shr_is_div(quarter, shift);
    }
    let ghost value = |p: int| radix4_value(quarter as int, stride as int, twiddle@, src@, p);
    let mut i: usize = 0;
    while i < quarter
        invariant
            n == 4 * quarter,
            is_pow2(stride as int),
            stride > 0,
            quarter % stride == 0,
            i % stride == 0,
            i <= quarter,
            src@.len() == n,
            dst@.len() == n,
            twiddle@.len() > 3 * (quarter - stride),
            value == (|p: int| radix4_value(quarter as int, stride as int, twiddle@, src@, p)),
            forall|p: int| 0 <= p < i ==> dst@[p] == #[trigger] value(p),
            forall|p: int| 0 <= p < i ==> dst@[p + quarter] == #[trigger] value(p + quarter),
            forall|p: int| 0 <= p < i ==> dst@[p + 2 * quarter] == #[trigger] value(p + 2 * quarter),
            forall|p: int| 0 <= p < i ==> dst@[p + 3 * quarter] == #[trigger] value(p + 3 * quarter),
        decreases quarter - i,
    {
        proof {
            lemma_block_fits(i as int, stride as int, quarter as int);
            vstd::arithmetic::power2::lemma2_to64();
            lemma_usize_shl_is_mul(i, 2);
            lemma_scaled_block(4, i as int, stride as int);
        }
        let ii = i << 2usize;
        let t1 = twiddle[i];
        let t2 = twiddle[2 * i];
        let t3 = twiddle[3 * i];
        let mut off: usize = 0;
        while off < stride
            invariant
                n == 4 * quarter,
                is_pow2(stride as int),
                stride > 0,
                i % stride == 0,
                ii == 4 * i,
                ii % stride == 0,
                i + stride <= quarter,
                off <= stride,
                src@.len() == n,
                dst@.len() == n,
                3 * i < twiddle@.len(),
                t1 == twiddle@[i as int],
                t2 == twiddle@[2 * i],
                t3 == twiddle@[3 * i],
                value == (|p: int| radix4_value(quarter as int, stride as int, twiddle@, src@, p)),
                forall|p: int| 0 <= p < i + off ==> dst@[p] == #[trigger] value(p),
                forall|p: int|
                    0 <= p < i + off ==> dst@[p + quarter] == #[trigger] value(p + quarter),
                forall|p: int|
                    0 <= p < i + off ==> dst@[p + 2 * quarter] == #[trigger] value(
                        p + 2 * quarter,
                    ),
                forall|p: int|
                    0 <= p < i + off ==> dst@[p + 3 * quarter] == #[trigger] value(
                        p + 3 * quarter,
                    ),
            decreases stride - off,
        {
            proof {
                lemma_block_offset(i, off, stride);
                lemma_block_offset(ii, off, stride);
            }
            let i1 = ii | off;
            let o = i | off;
            let a = src[i1];
            let b = src[i1 + stride].mul(t1);
            let c = src[i1 + 2 * stride].mul(t2);
            let d = src[i1 + 3 * stride].mul(t3);
            let acp = a.add(c);
            let acm = a.sub(c);
            let bdp = b.add(d);
            let bdm = b.sub(d).div_i();
            dst[o] = acp.add(bdp);
            dst[o + quarter] = acm.add(bdm);
            dst[o + 2 * quarter] = acp.sub(bdp);
            dst[o + 3 * quarter] = acm.sub(bdm);
            off += 1;
        }
        i += stride;
    }
    assert forall|p: int| 0 <= p < n implies #[trigger] dst@[p] == value(p) by {
        let lane = lane_of(quarter as int, p);
        if lane == 1 {
            assert(dst@[(p - quarter) + quarter] == value((p - quarter) + quarter));
        } else if lane == 2 {
            assert(dst@[(p - 2 * quarter) + 2 * quarter] == value(
                (p - 2 * quarter) + 2 * quarter,
            ));
        } else if lane == 3 {
            assert(dst@[(p - 3 * quarter) + 3 * quarter] == value(
                (p - 3 * quarter) + 3 * quarter,
            ));
        }
    }
    assert(dst@ =~= radix4_stage(n as int, idx as nat, twiddle@, src@));
}

/// The buffer after its halves are combined pairwise: position `p` in the
/// lower half holds the sum of the samples at `p` and `p + n / 2`, the
/// position `n / 2` above it their difference.
pub open spec fn combine_pairs<T: Sample>(n: int, buf: Seq<T>) -> Seq<T> {
    Seq::new(
        n as nat,
        |p: int|
            if p < n / 2 {
                buf[p].add_spec(buf[p + n / 2])
            } else {
                buf[p - n / 2].sub_spec(buf[p])
            },
    )
}

/// Combines the two halves of `dst` in place, pair by pair, with no twiddle:
/// the pass that a stage with all twiddles equal to one would make.
pub fn fft_phase_init_2<T: Sample>(n: usize, dst: &mut [T])
    requires
        n > 0,
        n % 2 == 0,
        old(dst)@.len() == n,
    ensures
        final(dst)@ == combine_pairs(n as int, old(dst)@),
{
    let half = n / 2;
    let ghost before = dst@;
    let mut o: usize = 0;
    while o < half
        invariant
            n == 2 * half,
            o <= half,
            before.len() == n,
            dst@.len() == n,
            forall|p: int| 0 <= p < o ==> dst@[p] == #[trigger] before[p].add_spec(before[p + half]),
            forall|p: int|
                0 <= p < o ==> dst@[p + half] == before[p].sub_spec(#[trigger] before[p + half]),
            forall|p: int| o <= p < half ==> #[trigger] dst@[p] == before[p],
            forall|p: int| o <= p < half ==> #[trigger] dst@[p + half] == before[p + half],
        decreases half - o,
    {
        let a = dst[o];
        let b = dst[o + half];
        dst[o] = a.add(b);
        dst[o + half] = a.sub(b);
        o += 1;
    }
    assert forall|p: int| 0 <= p < n implies #[trigger] dst@[p] == combine_pairs(
        n as int,
        before,
    )[p] by {
        if p >= half {
            assert(dst@[(p - half) + half] == before[p - half].sub_spec(before[(p - half) + half]));
        }
    }
    assert(dst@ =~= combine_pairs(n as int, before));
}

/// The pairwise combine is the first radix-2 stage with a twiddle of one:
/// where turning by `twiddle[0]` leaves every sample of `x` as it is, the
/// radix-2 stage of index `0` gives what the combine gives.
pub proof fn lemma_combine_is_plain_stage<T: Sample>(n: usize, twiddle: Seq<T>, x: Seq<T>)
    requires
        n > 0,
        n % 2 == 0,
        x.len() == n,
        forall|k: int| 0 <= k < n ==> (#[trigger] x[k]).mul_spec(twiddle[0]) == x[k],
    ensures
        radix2_stage(n as int, 0, twiddle, x) == combine_pairs(n as int, x),
{
    let half = n as int / 2;
    lemma2_to64();
    assert(stride_of(half, 0) == half);
    assert forall|p: int| 0 <= p < n implies radix2_value(half, half, twiddle, x, p)
        == combine_pairs(n as int, x)[p] by {
        let o = if p < half { p } else { p - half };
        lemma_small_mod(o as nat, half as nat);
        assert(x[o + half].mul_spec(twiddle[0]) == x[o + half]);
    }
    assert(radix2_stage(n as int, 0, twiddle, x) =~= combine_pairs(n as int, x));
}

} // verus!
