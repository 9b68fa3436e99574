//! One radix-4 stage against two radix-2 stages.
//!
//! Over exact samples, and with twiddles derived from one another, a
//! radix-4 stage gives what the radix-2 stage of the same index followed by
//! the radix-2 stage of the next index gives.

use vstd::prelude::*;
use crate::index::{
    lemma_block_start, lemma_doubled_offset, lemma_half_strides, lemma_shifted_offset, stride_of,
};
use crate::linear::lemma_mul_distributes_sub_right;
use crate::radix2::{radix2_inputs_ok, radix2_stage, radix2_value};
use crate::radix4::{butterfly4, lane_of, radix4_inputs_ok, radix4_stage, radix4_value};
use crate::sample::{Exact, Sample};

verus! {

/// At block start `i`, the three radix-4 twiddles are the radix-2 twiddle at
/// `i`, the one at `2 * i` and their product, and the radix-2 twiddle a
/// quarter above `i` is the one at `i` multiplied by `-i`.
pub open spec fn derived_at<T: Sample>(quarter: int, tw2: Seq<T>, tw4: Seq<T>, i: int) -> bool {
    &&& tw4[i] == tw2[i]
    &&& tw4[2 * i] == tw2[2 * i]
    &&& tw4[3 * i] == tw2[2 * i].mul_spec(tw2[i])
    &&& tw2[i + quarter] == tw2[i].div_i_spec()
}

/// The radix-4 table `tw4` is derived from the radix-2 table `tw2` at every
/// block start of the radix-4 stage.
pub open spec fn twiddles_derived<T: Sample>(
    quarter: int,
    stride: int,
    tw2: Seq<T>,
    tw4: Seq<T>,
) -> bool {
    forall|i: int|
        0 <= i < quarter && i % stride == 0 ==> #[trigger] derived_at(quarter, tw2, tw4, i)
}

/// Two radix-2 butterflies in a row, written as one radix-4 butterfly.
///
/// `u` is the twiddle of the first radix-2 stage, `v` that of the second in
/// the lower quarters; in the upper quarters the second twiddle is `-i * v`.
pub proof fn lemma_butterfly_pair<T: Exact>(a: T, b: T, c: T, d: T, u: T, v: T)
    ensures
        a.add_spec(c.mul_spec(u)).add_spec(b.add_spec(d.mul_spec(u)).mul_spec(v)) == butterfly4(
            a,
            b.mul_spec(v),
            c.mul_spec(u),
            d.mul_spec(u.mul_spec(v)),
            0,
        ),
        a.sub_spec(c.mul_spec(u)).add_spec(
            b.sub_spec(d.mul_spec(u)).mul_spec(v.div_i_spec()),
        ) == butterfly4(a, b.mul_spec(v), c.mul_spec(u), d.mul_spec(u.mul_spec(v)), 1),
        a.add_spec(c.mul_spec(u)).sub_spec(b.add_spec(d.mul_spec(u)).mul_spec(v)) == butterfly4(
            a,
            b.mul_spec(v),
            c.mul_spec(u),
            d.mul_spec(u.mul_spec(v)),
            2,
        ),
        a.sub_spec(c.mul_spec(u)).sub_spec(
            b.sub_spec(d.mul_spec(u)).mul_spec(v.div_i_spec()),
        ) == butterfly4(a, b.mul_spec(v), c.mul_spec(u), d.mul_spec(u.mul_spec(v)), 3),
{
    let du = d.mul_spec(u);
    T::mul_associates(d, u, v);
    T::mul_distributes_right(b, du, v);
    lemma_mul_distributes_sub_right(b, du, v);
    T::div_i_of_product(b.sub_spec(du), v);
}

/// A radix-4 stage is two radix-2 stages: with twiddles derived from one
/// another, the radix-4 stage of index `idx` gives what the radix-2 stage of
/// index `idx` followed by the radix-2 stage of index `idx + 1` gives.
pub proof fn lemma_radix4_is_two_radix2<T: Exact>(
    n: usize,
    idx: u32,
    tw2: Seq<T>,
    tw4: Seq<T>,
    src: Seq<T>,
)
    requires
        radix4_inputs_ok(n, tw4.len(), idx, src.len(), n as nat),
        radix2_inputs_ok(n, tw2.len(), idx, src.len(), n as nat),
        idx < u32::MAX,
        radix2_inputs_ok(n, tw2.len(), (idx + 1) as u32, src.len(), n as nat),
        twiddles_derived(n as int / 4, stride_of(n as int / 4, idx as nat), tw2, tw4),
    ensures
        radix4_stage(n as int, idx as nat, tw4, src) == radix2_stage(
            n as int,
            (idx + 1) as nat,
            tw2,
            radix2_stage(n as int, idx as nat, tw2, src),
        ),
{
    let quarter = n as int / 4;
    let half = n as int / 2;
    let stride = stride_of(quarter, idx as nat);
    lemma_half_strides(n as int, idx as nat);
    let mid = radix2_stage(n as int, idx as nat, tw2, src);
    assert forall|p: int| 0 <= p < n implies radix4_value(quarter, stride, tw4, src, p)
        == radix2_value(half, stride, tw2, mid, p) by {
        let lane = lane_of(quarter, p);
        let o = p - lane * quarter;
        lemma_block_start(o, stride, quarter);
        let off = o % stride;
        let i = o - off;
        assert(derived_at(quarter, tw2, tw4, i));
        // the second radix-2 stage
        let high = if lane == 1 || lane == 3 { quarter } else { 0 };
        let o2 = if p < half { p } else { p - half };
        assert(o2 == o + high);
        lemma_shifted_offset(o, quarter, stride);
        assert(o2 % stride == off);
        let m = 2 * (i + high) + off;
        // the first radix-2 stage, at the two positions that the second reads
        lemma_doubled_offset(i, off, stride);
        lemma_doubled_offset(i, off + stride, stride);
        let k = 4 * i + off;
        let u = tw2[2 * i];
        assert(0 <= m && m + stride < n);
        assert(mid[m] == radix2_value(half, 2 * stride, tw2, src, m));
        assert(mid[m + stride] == radix2_value(half, 2 * stride, tw2, src, m + stride));
        assert(mid[m] == if high == 0 {
            src[k].add_spec(src[k + 2 * stride].mul_spec(u))
        } else {
            src[k].sub_spec(src[k + 2 * stride].mul_spec(u))
        });
        assert(mid[m + stride] == if high == 0 {
            src[k + stride].add_spec(src[k + 3 * stride].mul_spec(u))
        } else {
            src[k + stride].sub_spec(src[k + 3 * stride].mul_spec(u))
        });
        lemma_butterfly_pair(
            src[k],
            src[k + stride],
            src[k + 2 * stride],
            src[k + 3 * stride],
            u,
            tw2[i],
        );
    }
    assert(radix4_stage(n as int, idx as nat, tw4, src) =~= radix2_stage(
        n as int,
        (idx + 1) as nat,
        tw2,
        mid,
    ));
}

} // verus!
