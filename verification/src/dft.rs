//! The radix-2 stages in a row against the discrete Fourier transform.
//!
//! Over exact samples, the stages of index `0`, `1`, ... run one after the
//! other evaluate the polynomial whose coefficients are the input samples at
//! every power of the root that the twiddle table holds: they compute the
//! transform that the direct sum defines.

use vstd::prelude::*;
use vstd::arithmetic::div_mod::{
    lemma_div_multiples_vanish, lemma_fundamental_div_mod_converse, lemma_small_mod,
};
use vstd::arithmetic::power2::{
    is_pow2_equiv, lemma2_to64, lemma_pow2, lemma_pow2_adds, lemma_pow2_pos,
    lemma_pow2_subtracts, lemma_pow2_unfold, pow2,
};
use crate::index::{lemma_pow2_stage, stride_of};
use crate::linear::{
    lemma_difference, lemma_mul_distributes_sub_left, lemma_mul_distributes_sub_right,
};
use crate::radix2::{radix2_inputs_ok, radix2_stage, radix2_value};
use crate::sample::{Exact, Sample};

verus! {

/// The sample `-x`, written as `(x - x) - x`.
pub open spec fn neg<T: Sample>(x: T) -> T {
    x.sub_spec(x).sub_spec(x)
}

/// `a + (b - b) == a`
pub proof fn lemma_add_nothing<T: Exact>(a: T, b: T)
    ensures
        a.add_spec(b.sub_spec(b)) == a,
{
    let zero = b.sub_spec(b);
    T::add_undoes_sub(b, b);
    T::add_associates(a, zero, b);
    lemma_difference(a.add_spec(zero), a.add_spec(b), b);
    T::sub_undoes_add(a, b);
}

/// `a - b == a + -b`
pub proof fn lemma_sub_adds_neg<T: Exact>(a: T, b: T)
    ensures
        a.sub_spec(b) == a.add_spec(neg(b)),
{
    T::add_associates(a, neg(b), b);
    T::add_undoes_sub(b.sub_spec(b), b);
    lemma_add_nothing(a, b);
    lemma_difference(a.add_spec(neg(b)), a, b);
}

/// `h * -z == -(h * z)`
pub proof fn lemma_mul_neg<T: Exact>(h: T, z: T)
    ensures
        h.mul_spec(neg(z)) == neg(h.mul_spec(z)),
{
    lemma_mul_distributes_sub_left(h, z.sub_spec(z), z);
    lemma_mul_distributes_sub_left(h, z, z);
}

/// The polynomial with coefficients `a`, lowest first, at the point `z`.
pub open spec fn eval<T: Sample>(a: Seq<T>, z: T) -> T
    decreases a.len(),
{
    if a.len() <= 1 {
        a[0]
    } else {
        a[0].add_spec(eval(a.drop_first(), z).mul_spec(z))
    }
}

/// Every `step`-th sample of `x` from position `r` on, `len` of them.
pub open spec fn every<T: Sample>(x: Seq<T>, r: int, step: int, len: nat) -> Seq<T> {
    Seq::new(len, |q: int| x[r + step * q])
}

/// A polynomial splits into its even and its odd coefficients:
/// `p(z) == even(z * z) + odd(z * z) * z`.
pub proof fn lemma_even_odd<T: Exact>(x: Seq<T>, r: int, step: int, len: nat, z: T)
    requires
        len >= 1,
    ensures
        eval(every(x, r, step, 2 * len), z) == eval(
            every(x, r, 2 * step, len),
            z.mul_spec(z),
        ).add_spec(eval(every(x, r + step, 2 * step, len), z.mul_spec(z)).mul_spec(z)),
    decreases len,
{
    let zz = z.mul_spec(z);
    let all = every(x, r, step, 2 * len);
    let even = every(x, r, 2 * step, len);
    let odd = every(x, r + step, 2 * step, len);
    let a0 = x[r];
    let a1 = x[r + step];
    assert(all[0] == a0 && even[0] == a0 && odd[0] == a1);
    assert(step * 1 == step) by (nonlinear_arith);
    assert(all[1] == a1);
    let rest = all.drop_first();
    assert(rest[0] == a1);
    if len == 1 {
        assert(rest.drop_first().len() == 0);
        assert(eval(rest, z) == a1);
        assert(eval(all, z) == a0.add_spec(a1.mul_spec(z)));
        assert(eval(even, zz) == a0);
        assert(eval(odd, zz) == a1);
    } else {
        let tail = every(x, r + 2 * step, step, (2 * (len - 1)) as nat);
        assert(rest.drop_first() =~= tail) by {
            assert forall|q: int| 0 <= q < tail.len() implies rest.drop_first()[q] == tail[q] by {
                assert(r + step * (q + 2) == r + 2 * step + step * q) by (nonlinear_arith);
            }
        }
        let even_tail = every(x, r + 2 * step, 2 * step, (len - 1) as nat);
        let odd_tail = every(x, r + 3 * step, 2 * step, (len - 1) as nat);
        assert(even.drop_first() =~= even_tail) by {
            assert forall|q: int| 0 <= q < even_tail.len() implies even.drop_first()[q]
                == even_tail[q] by {
                assert(r + (2 * step) * (q + 1) == r + 2 * step + (2 * step) * q)
                    by (nonlinear_arith);
            }
        }
        assert(odd.drop_first() =~= odd_tail) by {
            assert forall|q: int| 0 <= q < odd_tail.len() implies odd.drop_first()[q]
                == odd_tail[q] by {
                assert(r + step + (2 * step) * (q + 1) == r + 3 * step + (2 * step) * q)
                    by (nonlinear_arith);
            }
        }
        lemma_even_odd(x, r + 2 * step, step, (len - 1) as nat, z);
        assert(r + 2 * step + step == r + 3 * step);
        let e = eval(even_tail, zz);
        let o = eval(odd_tail, zz);
        let big = eval(tail, z);
        assert(big == e.add_spec(o.mul_spec(z)));
        assert(eval(rest, z) == a1.add_spec(big.mul_spec(z)));
        assert(eval(all, z) == a0.add_spec(a1.add_spec(big.mul_spec(z)).mul_spec(z)));
        assert(eval(even, zz) == a0.add_spec(e.mul_spec(zz)));
        assert(eval(odd, zz) == a1.add_spec(o.mul_spec(zz)));
        // (a1 + big * z) * z == a1 * z + (e * zz + (o * zz) * z)
        let p = a1.mul_spec(z);
        let q = e.mul_spec(zz);
        let w = o.mul_spec(zz).mul_spec(z);
        T::mul_distributes_right(a1, big.mul_spec(z), z);
        T::mul_associates(big, z, z);
        T::mul_distributes_right(e, o.mul_spec(z), zz);
        T::mul_associates(o, z, zz);
        T::mul_associates(o, zz, z);
        T::mul_associates(z, z, z);
        assert(a1.add_spec(big.mul_spec(z)).mul_spec(z) == p.add_spec(q.add_spec(w)));
        // (a1 + o * zz) * z == a1 * z + (o * zz) * z
        T::mul_distributes_right(a1, o.mul_spec(zz), z);
        // a0 + (p + (q + w)) == (a0 + q) + (p + w)
        T::add_associates(p, q, w);
        T::add_commutes(p, q);
        T::add_associates(q, p, w);
        T::add_associates(a0, q, p.add_spec(w));
    }
}

/// The power `e` of the root whose powers the table holds: the table gives
/// the powers below `half`, and the power `half` of the root is `-1`.
pub open spec fn root_power<T: Sample>(twiddle: Seq<T>, half: int, e: int) -> T {
    if e < half {
        twiddle[e]
    } else {
        neg(twiddle[e - half])
    }
}

/// The square of power `e` is power `2 * e`, counted modulo `2 * half`.
pub open spec fn squares_at<T: Sample>(twiddle: Seq<T>, half: int, e: int) -> bool {
    root_power(twiddle, half, e).mul_spec(root_power(twiddle, half, e)) == root_power(
        twiddle,
        half,
        (2 * e) % (2 * half),
    )
}

/// The table holds the powers of a root of unity of order `2 * half`, as far
/// as the stages rely on it: every power squares to the power of twice its
/// exponent.
pub open spec fn table_of_powers<T: Sample>(twiddle: Seq<T>, half: int) -> bool {
    forall|e: int| 0 <= e < 2 * half ==> #[trigger] squares_at(twiddle, half, e)
}

/// The product of the table's entries `a` and `b` is power `a + b` of the root.
pub open spec fn multiplies_at<T: Sample>(twiddle: Seq<T>, half: int, a: int, b: int) -> bool {
    twiddle[a].mul_spec(twiddle[b]) == root_power(twiddle, half, a + b)
}

/// The table holds the powers `0` to `half - 1` of a root whose power `half`
/// is `-1`: entries multiply as powers do.
pub open spec fn powers_of_root<T: Sample>(twiddle: Seq<T>, half: int) -> bool {
    forall|a: int, b: int|
        0 <= a < half && 0 <= b < half ==> #[trigger] multiplies_at(twiddle, half, a, b)
}

/// `a - a == b - b`
pub proof fn lemma_one_zero<T: Exact>(a: T, b: T)
    ensures
        a.sub_spec(a) == b.sub_spec(b),
{
    lemma_add_nothing(a.sub_spec(a), b);
    lemma_add_nothing(b.sub_spec(b), a);
    T::add_commutes(a.sub_spec(a), b.sub_spec(b));
}

/// `-(-v) == v`
pub proof fn lemma_neg_neg<T: Exact>(v: T)
    ensures
        neg(neg(v)) == v,
{
    lemma_sub_adds_neg(v, v);
    lemma_one_zero(v, neg(v));
    lemma_difference(v, neg(v).sub_spec(neg(v)), neg(v));
}

/// `-t * u == -(t * u)`
pub proof fn lemma_neg_mul<T: Exact>(t: T, u: T)
    ensures
        neg(t).mul_spec(u) == neg(t.mul_spec(u)),
{
    lemma_mul_distributes_sub_right(t.sub_spec(t), t, u);
    lemma_mul_distributes_sub_right(t, t, u);
}

/// `-t * -t == t * t`
pub proof fn lemma_neg_square<T: Exact>(t: T)
    ensures
        neg(t).mul_spec(neg(t)) == t.mul_spec(t),
{
    lemma_neg_mul(t, neg(t));
    lemma_mul_neg(t, t);
    lemma_neg_neg(t.mul_spec(t));
}

/// A table of the powers of a root squares as the stages need it to.
pub proof fn lemma_powers_square<T: Exact>(twiddle: Seq<T>, half: int)
    requires
        half > 0,
        powers_of_root(twiddle, half),
    ensures
        table_of_powers(twiddle, half),
{
    assert forall|e: int| 0 <= e < 2 * half implies #[trigger] squares_at(twiddle, half, e) by {
        if e < half {
            assert(multiplies_at(twiddle, half, e, e));
            lemma_small_mod((2 * e) as nat, (2 * half) as nat);
        } else {
            let f = e - half;
            assert(multiplies_at(twiddle, half, f, f));
            lemma_neg_square(twiddle[f]);
            lemma_fundamental_div_mod_converse(2 * e, 2 * half, 1, 2 * f);
        }
    }
}

/// The transform of `x`: at position `k`, the polynomial with the samples of
/// `x` as coefficients at power `k` of the root, which is the sum of
/// `x[m] * root^(k * m)` over all `m`.
pub open spec fn dft<T: Sample>(twiddle: Seq<T>, x: Seq<T>) -> Seq<T> {
    Seq::new(x.len(), |k: int| eval(x, root_power(twiddle, x.len() as int / 2, k)))
}

/// The buffer after the radix-2 stages of index `0` to `stages - 1`, each
/// run on the result of the one before.
pub open spec fn radix2_chain<T: Sample>(n: int, twiddle: Seq<T>, x: Seq<T>, stages: nat) -> Seq<T>
    decreases stages,
{
    if stages == 0 {
        x
    } else {
        radix2_stage(
            n,
            (stages - 1) as nat,
            twiddle,
            radix2_chain(n, twiddle, x, (stages - 1) as nat),
        )
    }
}

/// What block `c` holds at offset `r` when the buffer is cut into `blocks`
/// blocks of `width` samples: the transform of size `blocks` of every
/// `width`-th input sample from `r` on, at frequency `c`.
pub open spec fn partial_at<T: Sample>(
    x: Seq<T>,
    twiddle: Seq<T>,
    half: int,
    blocks: nat,
    width: int,
    c: int,
    r: int,
) -> T {
    eval(every(x, r, width, blocks), root_power(twiddle, half, c * width))
}

/// After `t` stages the buffer holds, block by block, the transforms of size
/// `2^t` of the input samples taken `2^(m - t)` apart.
pub proof fn lemma_chain_invariant<T: Exact>(m: nat, twiddle: Seq<T>, x: Seq<T>, t: nat)
    requires
        m >= 1,
        t <= m,
        x.len() == pow2(m),
        table_of_powers(twiddle, pow2((m - 1) as nat) as int),
    ensures
        radix2_chain(pow2(m) as int, twiddle, x, t).len() == pow2(m),
        forall|c: int, r: int|
            0 <= c < pow2(t) && 0 <= r < pow2((m - t) as nat) ==> radix2_chain(
                pow2(m) as int,
                twiddle,
                x,
                t,
            )[c * pow2((m - t) as nat) + r] == #[trigger] partial_at(
                x,
                twiddle,
                pow2((m - 1) as nat) as int,
                pow2(t),
                pow2((m - t) as nat) as int,
                c,
                r,
            ),
    decreases t,
{
    let n = pow2(m) as int;
    let half = pow2((m - 1) as nat) as int;
    lemma_pow2_unfold(m);
    if t == 0 {
        lemma2_to64();
        assert forall|c: int, r: int| 0 <= c < pow2(0) && 0 <= r < n implies x[c * n + r]
            == #[trigger] partial_at(x, twiddle, half, pow2(0), n, c, r) by {
            assert(c * n == 0) by (nonlinear_arith)
                requires
                    c == 0,
            ;
            assert(every(x, r, n, 1)[0] == x[r + n * 0]);
        }
    } else {
        let u = (t - 1) as nat;
        lemma_chain_invariant(m, twiddle, x, u);
        let y = radix2_chain(n, twiddle, x, u);
        let blocks = pow2(u);
        let wide = pow2((m - u) as nat) as int;
        let s = pow2((m - t) as nat) as int;
        lemma_pow2_unfold((m - u) as nat);
        lemma_pow2_unfold(t);
        lemma_pow2_pos(u);
        lemma_pow2_pos((m - t) as nat);
        lemma_pow2_adds(u, (m - t) as nat);
        assert(half == blocks * s);
        assert(wide == 2 * s);
        assert(half == s * blocks) by (nonlinear_arith)
            requires
                half == blocks * s,
        ;
        lemma_div_multiples_vanish(s, blocks as int);
        assert((blocks * s) / (blocks as int) == s) by (nonlinear_arith)
            requires
                (blocks as int * s) / (blocks as int) == s,
        ;
        assert(stride_of(n / 2, u) == s);
        let next = radix2_chain(n, twiddle, x, t);
        assert(next == radix2_stage(n, u, twiddle, y));
        assert forall|c2: int, off: int| 0 <= c2 < pow2(t) && 0 <= off < s implies next[c2 * s
            + off] == #[trigger] partial_at(x, twiddle, half, pow2(t), s, c2, off) by {
            let upper = c2 >= blocks;
            let c = if upper { c2 - blocks } else { c2 };
            let p = c2 * s + off;
            let o = c * s + off;
            assert(c2 * s == c * s + (if upper { half } else { 0 })) by (nonlinear_arith)
                requires
                    half == blocks * s,
                    c2 == c + (if upper { blocks as int } else { 0 }),
            ;
            assert(0 <= c * s && c * s + s <= half) by (nonlinear_arith)
                requires
                    half == blocks * s,
                    0 <= c < blocks,
                    s > 0,
            ;
            assert(o == s * c + off) by (nonlinear_arith)
                requires
                    o == c * s + off,
            ;
            lemma_fundamental_div_mod_converse(o, s, c, off);
            assert(next[p] == radix2_value(half, s, twiddle, y, p));
            assert(2 * (c * s) + off == c * wide + off) by (nonlinear_arith)
                requires
                    wide == 2 * s,
            ;
            assert(2 * (c * s) + off + s == c * wide + (off + s)) by (nonlinear_arith)
                requires
                    wide == 2 * s,
            ;
            let lower_part = partial_at(x, twiddle, half, blocks, wide, c, off);
            let upper_part = partial_at(x, twiddle, half, blocks, wide, c, off + s);
            assert(y[c * wide + off] == lower_part);
            assert(y[c * wide + (off + s)] == upper_part);
            let tw = twiddle[c * s];
            assert(next[p] == if upper {
                lower_part.sub_spec(upper_part.mul_spec(tw))
            } else {
                lower_part.add_spec(upper_part.mul_spec(tw))
            });
            // the point of the wider transform, and its square
            let z = root_power(twiddle, half, c2 * s);
            assert(squares_at(twiddle, half, c2 * s));
            assert(2 * (c2 * s) == n * (if upper { 1int } else { 0 }) + c * wide)
                by (nonlinear_arith)
                requires
                    c2 * s == c * s + (if upper { half } else { 0 }),
                    n == 2 * half,
                    wide == 2 * s,
            ;
            assert(0 <= c * wide < n) by (nonlinear_arith)
                requires
                    0 <= c * s && c * s + s <= half,
                    n == 2 * half,
                    wide == 2 * s,
                    s > 0,
            ;
            lemma_fundamental_div_mod_converse(
                2 * (c2 * s),
                n,
                if upper { 1int } else { 0 },
                c * wide,
            );
            assert(z.mul_spec(z) == root_power(twiddle, half, c * wide));
            lemma_even_odd(x, off, s, blocks, z);
            assert(2 * blocks == pow2(t));
            assert(every(x, off, 2 * s, blocks) == every(x, off, wide, blocks));
            if upper {
                lemma_mul_neg(upper_part, tw);
                lemma_sub_adds_neg(lower_part, upper_part.mul_spec(tw));
            }
        }
    }
}

/// The radix-2 stages in a row compute the transform: for `n = 2^m` samples
/// and a table of the powers of a root of unity of order `n`, the stages of
/// index `0` to `m - 1`, each run on the result of the one before, give at
/// every position `k` the sum of `x[j] * root^(k * j)` over all `j`.
pub proof fn lemma_radix2_chain_is_dft<T: Exact>(m: nat, twiddle: Seq<T>, x: Seq<T>)
    requires
        m >= 1,
        x.len() == pow2(m),
        table_of_powers(twiddle, pow2((m - 1) as nat) as int),
    ensures
        radix2_chain(x.len() as int, twiddle, x, m) == dft(twiddle, x),
{
    let n = pow2(m) as int;
    let half = pow2((m - 1) as nat) as int;
    lemma_pow2_unfold(m);
    lemma_chain_invariant(m, twiddle, x, m);
    lemma2_to64();
    let y = radix2_chain(n, twiddle, x, m);
    assert forall|k: int| 0 <= k < n implies y[k] == dft(twiddle, x)[k] by {
        let one = pow2((m - m) as nat) as int;
        assert(one == 1);
        assert(y[k * one + 0] == partial_at(x, twiddle, half, pow2(m), one, k, 0));
        assert(every(x, 0, 1, pow2(m)) =~= x);
    }
    assert(y =~= dft(twiddle, x));
}

/// Every stage of the row is one that the radix-2 kernels accept: for
/// `n = 2^m` samples and a table of at least `n / 2` twiddles, each index
/// below `m` meets what a radix-2 pass asks of its arguments.
pub proof fn lemma_chain_stage_accepted(m: nat, n: usize, idx: u32, twiddle_len: nat)
    requires
        m >= 1,
        n == pow2(m),
        idx < m,
        twiddle_len >= n / 2,
    ensures
        radix2_inputs_ok(n, twiddle_len, idx, n as nat, n as nat),
{
    let half = pow2((m - 1) as nat);
    lemma_pow2_unfold(m);
    lemma_pow2((m - 1) as nat);
    is_pow2_equiv(half as int);
    lemma_pow2_subtracts(idx as nat, (m - 1) as nat);
    lemma_pow2_stage(half as int, idx as nat);
}

} // verus!
