//! Linearity of the stages over exact samples.
//!
//! With scalars `a` and `b`, every stage maps `a * x + b * y` to `a` times
//! its result on `x` plus `b` times its result on `y`.

use vstd::prelude::*;
use crate::index::{lemma_block_start, stride_of};
use crate::radix2::{radix2_inputs_ok, radix2_stage, radix2_value};
use crate::radix4::{
    butterfly4, combine_pairs, lane_of, radix4_inputs_ok, radix4_stage, radix4_value,
};
use crate::sample::{Exact, Sample};

verus! {

/// The combination `a * x + b * y` of two samples.
pub open spec fn blend<T: Sample>(a: T, x: T, b: T, y: T) -> T {
    a.mul_spec(x).add_spec(b.mul_spec(y))
}

/// The combination `a * x + b * y` of two buffers, sample by sample.
pub open spec fn blend_all<T: Sample>(a: T, x: Seq<T>, b: T, y: Seq<T>) -> Seq<T> {
    Seq::new(x.len(), |k: int| blend(a, x[k], b, y[k]))
}

/// What gives `a` when `b` is added to it is `a - b`.
pub proof fn lemma_difference<T: Exact>(x: T, a: T, b: T)
    requires
        x.add_spec(b) == a,
    ensures
        x == a.sub_spec(b),
{
    T::sub_undoes_add(x, b);
}

/// `(p + q) + (r + s) == (p + r) + (q + s)`
pub proof fn lemma_sum_interchange<T: Exact>(p: T, q: T, r: T, s: T)
    ensures
        p.add_spec(q).add_spec(r.add_spec(s)) == p.add_spec(r).add_spec(q.add_spec(s)),
{
    T::add_associates(p, q, r.add_spec(s));
    T::add_associates(q, r, s);
    T::add_commutes(q, r);
    T::add_associates(r, q, s);
    T::add_associates(p, r, q.add_spec(s));
}

/// `(p + q) - (r + s) == (p - r) + (q - s)`
pub proof fn lemma_difference_interchange<T: Exact>(p: T, q: T, r: T, s: T)
    ensures
        p.add_spec(q).sub_spec(r.add_spec(s)) == p.sub_spec(r).add_spec(q.sub_spec(s)),
{
    lemma_sum_interchange(p.sub_spec(r), q.sub_spec(s), r, s);
    T::add_undoes_sub(p, r);
    T::add_undoes_sub(q, s);
    lemma_difference(p.sub_spec(r).add_spec(q.sub_spec(s)), p.add_spec(q), r.add_spec(s));
}

/// `a * (b - c) == a * b - a * c`
pub proof fn lemma_mul_distributes_sub_left<T: Exact>(a: T, b: T, c: T)
    ensures
        a.mul_spec(b.sub_spec(c)) == a.mul_spec(b).sub_spec(a.mul_spec(c)),
{
    T::mul_distributes_left(a, b.sub_spec(c), c);
    T::add_undoes_sub(b, c);
    lemma_difference(a.mul_spec(b.sub_spec(c)), a.mul_spec(b), a.mul_spec(c));
}

/// `(a - b) * c == a * c - b * c`
pub proof fn lemma_mul_distributes_sub_right<T: Exact>(a: T, b: T, c: T)
    ensures
        a.sub_spec(b).mul_spec(c) == a.mul_spec(c).sub_spec(b.mul_spec(c)),
{
    T::mul_distributes_right(a.sub_spec(b), b, c);
    T::add_undoes_sub(a, b);
    lemma_difference(a.sub_spec(b).mul_spec(c), a.mul_spec(c), b.mul_spec(c));
}

/// The sum of two combinations is the combination of the sums.
pub proof fn lemma_blend_sum<T: Exact>(a: T, x: T, u: T, b: T, y: T, v: T)
    ensures
        blend(a, x, b, y).add_spec(blend(a, u, b, v)) == blend(
            a,
            x.add_spec(u),
            b,
            y.add_spec(v),
        ),
{
    lemma_sum_interchange(a.mul_spec(x), b.mul_spec(y), a.mul_spec(u), b.mul_spec(v));
    T::mul_distributes_left(a, x, u);
    T::mul_distributes_left(b, y, v);
}

/// The difference of two combinations is the combination of the differences.
pub proof fn lemma_blend_difference<T: Exact>(a: T, x: T, u: T, b: T, y: T, v: T)
    ensures
        blend(a, x, b, y).sub_spec(blend(a, u, b, v)) == blend(
            a,
            x.sub_spec(u),
            b,
            y.sub_spec(v),
        ),
{
    lemma_difference_interchange(a.mul_spec(x), b.mul_spec(y), a.mul_spec(u), b.mul_spec(v));
    lemma_mul_distributes_sub_left(a, x, u);
    lemma_mul_distributes_sub_left(b, y, v);
}

/// A combination turned by a twiddle is the combination of the turned samples.
pub proof fn lemma_blend_product<T: Exact>(a: T, x: T, b: T, y: T, t: T)
    ensures
        blend(a, x, b, y).mul_spec(t) == blend(a, x.mul_spec(t), b, y.mul_spec(t)),
{
    T::mul_distributes_right(a.mul_spec(x), b.mul_spec(y), t);
    T::mul_associates(a, x, t);
    T::mul_associates(b, y, t);
}

/// A combination multiplied by `-i` is the combination of the multiplied samples.
pub proof fn lemma_blend_div_i<T: Exact>(a: T, x: T, b: T, y: T)
    ensures
        blend(a, x, b, y).div_i_spec() == blend(a, x.div_i_spec(), b, y.div_i_spec()),
{
    T::div_i_of_sum(a.mul_spec(x), b.mul_spec(y));
    T::div_i_of_product(a, x);
    T::div_i_of_product(b, y);
}

/// The radix-2 stage is linear: its result on `a * x + b * y` is `a` times
/// its result on `x` plus `b` times its result on `y`.
pub proof fn lemma_radix2_linear<T: Exact>(
    n: usize,
    idx: u32,
    twiddle: Seq<T>,
    a: T,
    x: Seq<T>,
    b: T,
    y: Seq<T>,
)
    requires
        radix2_inputs_ok(n, twiddle.len(), idx, x.len(), n as nat),
        y.len() == n,
    ensures
        radix2_stage(n as int, idx as nat, twiddle, blend_all(a, x, b, y)) == blend_all(
            a,
            radix2_stage(n as int, idx as nat, twiddle, x),
            b,
            radix2_stage(n as int, idx as nat, twiddle, y),
        ),
{
    let half = n as int / 2;
    let stride = stride_of(half, idx as nat);
    let z = blend_all(a, x, b, y);
    assert forall|p: int| 0 <= p < n implies radix2_value(half, stride, twiddle, z, p) == blend(
        a,
        radix2_value(half, stride, twiddle, x, p),
        b,
        radix2_value(half, stride, twiddle, y, p),
    ) by {
        let o = if p < half { p } else { p - half };
        lemma_block_start(o, stride, half);
        let off = o % stride;
        let i = o - off;
        let k = 2 * i + off;
        let t = twiddle[i];
        assert(z[k] == blend(a, x[k], b, y[k]));
        assert(z[k + stride] == blend(a, x[k + stride], b, y[k + stride]));
        lemma_blend_product(a, x[k + stride], b, y[k + stride], t);
        if p < half {
            lemma_blend_sum(
                a,
                x[k],
                x[k + stride].mul_spec(t),
                b,
                y[k],
                y[k + stride].mul_spec(t),
            );
        } else {
            lemma_blend_difference(
                a,
                x[k],
                x[k + stride].mul_spec(t),
                b,
                y[k],
                y[k + stride].mul_spec(t),
            );
        }
    }
    assert(radix2_stage(n as int, idx as nat, twiddle, z) =~= blend_all(
        a,
        radix2_stage(n as int, idx as nat, twiddle, x),
        b,
        radix2_stage(n as int, idx as nat, twiddle, y),
    ));
}

/// The four-point butterfly is linear in its inputs.
pub proof fn lemma_butterfly4_linear<T: Exact>(
    a: T,
    x: (T, T, T, T),
    b: T,
    y: (T, T, T, T),
    lane: int,
)
    ensures
        butterfly4(
            blend(a, x.0, b, y.0),
            blend(a, x.1, b, y.1),
            blend(a, x.2, b, y.2),
            blend(a, x.3, b, y.3),
            lane,
        ) == blend(
            a,
            butterfly4(x.0, x.1, x.2, x.3, lane),
            b,
            butterfly4(y.0, y.1, y.2, y.3, lane),
        ),
{
    lemma_blend_sum(a, x.0, x.2, b, y.0, y.2);
    lemma_blend_difference(a, x.0, x.2, b, y.0, y.2);
    lemma_blend_sum(a, x.1, x.3, b, y.1, y.3);
    lemma_blend_difference(a, x.1, x.3, b, y.1, y.3);
    lemma_blend_div_i(a, x.1.sub_spec(x.3), b, y.1.sub_spec(y.3));
    let (xp, xm) = (x.0.add_spec(x.2), x.0.sub_spec(x.2));
    let (yp, ym) = (y.0.add_spec(y.2), y.0.sub_spec(y.2));
    let (xq, xr) = (x.1.add_spec(x.3), x.1.sub_spec(x.3).div_i_spec());
    let (yq, yr) = (y.1.add_spec(y.3), y.1.sub_spec(y.3).div_i_spec());
    lemma_blend_sum(a, xp, xq, b, yp, yq);
    lemma_blend_sum(a, xm, xr, b, ym, yr);
    lemma_blend_difference(a, xp, xq, b, yp, yq);
    lemma_blend_difference(a, xm, xr, b, ym, yr);
}

/// The radix-4 stage is linear: its result on `a * x + b * y` is `a` times
/// its result on `x` plus `b` times its result on `y`.
pub proof fn lemma_radix4_linear<T: Exact>(
    n: usize,
    idx: u32,
    twiddle: Seq<T>,
    a: T,
    x: Seq<T>,
    b: T,
    y: Seq<T>,
)
    requires
        radix4_inputs_ok(n, twiddle.len(), idx, x.len(), n as nat),
        y.len() == n,
    ensures
        radix4_stage(n as int, idx as nat, twiddle, blend_all(a, x, b, y)) == blend_all(
            a,
            radix4_stage(n as int, idx as nat, twiddle, x),
            b,
            radix4_stage(n as int, idx as nat, twiddle, y),
        ),
{
    let quarter = n as int / 4;
    let stride = stride_of(quarter, idx as nat);
    let z = blend_all(a, x, b, y);
    assert forall|p: int| 0 <= p < n implies radix4_value(quarter, stride, twiddle, z, p)
        == blend(
        a,
        radix4_value(quarter, stride, twiddle, x, p),
        b,
        radix4_value(quarter, stride, twiddle, y, p),
    ) by {
        let lane = lane_of(quarter, p);
        let o = p - lane * quarter;
        lemma_block_start(o, stride, quarter);
        let off = o % stride;
        let i = o - off;
        let k = 4 * i + off;
        let (k1, k2, k3) = (k + stride, k + 2 * stride, k + 3 * stride);
        let (t1, t2, t3) = (twiddle[i], twiddle[2 * i], twiddle[3 * i]);
        assert(z[k] == blend(a, x[k], b, y[k]));
        assert(z[k1] == blend(a, x[k1], b, y[k1]));
        assert(z[k2] == blend(a, x[k2], b, y[k2]));
        assert(z[k3] == blend(a, x[k3], b, y[k3]));
        lemma_blend_product(a, x[k1], b, y[k1], t1);
        lemma_blend_product(a, x[k2], b, y[k2], t2);
        lemma_blend_product(a, x[k3], b, y[k3], t3);
        lemma_butterfly4_linear(
            a,
            (x[k], x[k1].mul_spec(t1), x[k2].mul_spec(t2), x[k3].mul_spec(t3)),
            b,
            (y[k], y[k1].mul_spec(t1), y[k2].mul_spec(t2), y[k3].mul_spec(t3)),
            lane,
        );
    }
    assert(radix4_stage(n as int, idx as nat, twiddle, z) =~= blend_all(
        a,
        radix4_stage(n as int, idx as nat, twiddle, x),
        b,
        radix4_stage(n as int, idx as nat, twiddle, y),
    ));
}

/// The pairwise combine is linear: its result on `a * x + b * y` is `a`
/// times its result on `x` plus `b` times its result on `y`.
pub proof fn lemma_combine_pairs_linear<T: Exact>(n: usize, a: T, x: Seq<T>, b: T, y: Seq<T>)
    requires
        n > 0,
        n % 2 == 0,
        x.len() == n,
        y.len() == n,
    ensures
        combine_pairs(n as int, blend_all(a, x, b, y)) == blend_all(
            a,
            combine_pairs(n as int, x),
            b,
            combine_pairs(n as int, y),
        ),
{
    let half = n as int / 2;
    let z = blend_all(a, x, b, y);
    assert forall|p: int| 0 <= p < n implies combine_pairs(n as int, z)[p] == blend(
        a,
        combine_pairs(n as int, x)[p],
        b,
        combine_pairs(n as int, y)[p],
    ) by {
        if p < half {
            assert(z[p] == blend(a, x[p], b, y[p]));
            assert(z[p + half] == blend(a, x[p + half], b, y[p + half]));
            lemma_blend_sum(a, x[p], x[p + half], b, y[p], y[p + half]);
        } else {
            assert(z[p] == blend(a, x[p], b, y[p]));
            assert(z[p - half] == blend(a, x[p - half], b, y[p - half]));
            lemma_blend_difference(a, x[p - half], x[p], b, y[p - half], y[p]);
        }
    }
    assert(combine_pairs(n as int, z) =~= blend_all(
        a,
        combine_pairs(n as int, x),
        b,
        combine_pairs(n as int, y),
    ));
}

} // verus!
