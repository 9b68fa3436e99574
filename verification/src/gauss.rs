//! Exact complex samples with integer components.

use vstd::prelude::*;
use vstd::wrapping::i64_specs;
use vstd::arithmetic::div_mod::{
    lemma_add_mod_noop, lemma_mod_multiples_vanish, lemma_mod_twice, lemma_mul_mod_noop,
    lemma_sub_mod_noop,
};
use vstd::arithmetic::mul::lemma_mul_is_associative;
use crate::sample::{Exact, Sample};

verus! {

/// A complex number whose real and imaginary parts are 64-bit integers.
///
/// Arithmetic wraps around in each component, so every operation is total
/// and exact modulo 2^64.
#[derive(Clone, Copy, Debug, PartialEq, Eq, Structural)]
pub struct Gauss {
    pub re: i64,
    pub im: i64,
}

impl Gauss {
    /// The number `re + im * i`.
    pub fn new(re: i64, im: i64) -> (r: Gauss)
        ensures
            r == (Gauss { re, im }),
    {
        Gauss { re, im }
    }
}

impl Sample for Gauss {
    open spec fn add_spec(self, rhs: Self) -> Self {
        Gauss {
            re: i64_specs::wrapping_add(self.re, rhs.re),
            im: i64_specs::wrapping_add(self.im, rhs.im),
        }
    }

    open spec fn sub_spec(self, rhs: Self) -> Self {
        Gauss {
            re: i64_specs::wrapping_sub(self.re, rhs.re),
            im: i64_specs::wrapping_sub(self.im, rhs.im),
        }
    }

    open spec fn mul_spec(self, rhs: Self) -> Self {
        Gauss {
            re: i64_specs::wrapping_sub(
                i64_specs::wrapping_mul(self.re, rhs.re),
                i64_specs::wrapping_mul(self.im, rhs.im),
            ),
            im: i64_specs::wrapping_add(
                i64_specs::wrapping_mul(self.im, rhs.re),
                i64_specs::wrapping_mul(self.re, rhs.im),
            ),
        }
    }

    open spec fn div_i_spec(self) -> Self {
        Gauss { re: self.im, im: i64_specs::wrapping_sub(0, self.re) }
    }

    fn add(self, rhs: Self) -> (r: Self) {
        Gauss { re: self.re.wrapping_add(rhs.re), im: self.im.wrapping_add(rhs.im) }
    }

    fn sub(self, rhs: Self) -> (r: Self) {
        Gauss { re: self.re.wrapping_sub(rhs.re), im: self.im.wrapping_sub(rhs.im) }
    }

    fn mul(self, rhs: Self) -> (r: Self) {
        Gauss {
            re: self.re.wrapping_mul(rhs.re).wrapping_sub(self.im.wrapping_mul(rhs.im)),
            im: self.im.wrapping_mul(rhs.re).wrapping_add(self.re.wrapping_mul(rhs.im)),
        }
    }

    fn div_i(self) -> (r: Self) {
        let zero: i64 = 0;
        Gauss { re: self.im, im: zero.wrapping_sub(self.re) }
    }
}

/// The number of values a component can take.
pub open spec fn modulus() -> int {
    0x1_0000_0000_0000_0000
}

/// Two integers that differ by a multiple of the modulus.
#[verifier::opaque]
pub open spec fn congruent(x: int, y: int) -> bool {
    x % modulus() == y % modulus()
}

/// A sample whose components are congruent to the given integers.
pub open spec fn stands_for(g: Gauss, re: int, im: int) -> bool {
    congruent(g.re as int, re) && congruent(g.im as int, im)
}

/// Every integer is congruent to itself.
proof fn lemma_congruent_self(x: int)
    ensures
        congruent(x, x),
{
    reveal(congruent);
}

/// Congruence passes along a chain.
proof fn lemma_congruent_chain(x: int, y: int, z: int)
    requires
        congruent(x, y),
        congruent(y, z),
    ensures
        congruent(x, z),
{
    reveal(congruent);
}

/// Sums, differences and products of congruent integers are congruent.
proof fn lemma_congruent_sum(x: int, u: int, y: int, v: int)
    requires
        congruent(x, u),
        congruent(y, v),
    ensures
        congruent(x + y, u + v),
        congruent(x - y, u - v),
        congruent(x * y, u * v),
{
    reveal(congruent);
    lemma_add_mod_noop(x, y, modulus());
    lemma_add_mod_noop(u, v, modulus());
    lemma_sub_mod_noop(x, y, modulus());
    lemma_sub_mod_noop(u, v, modulus());
    lemma_mul_mod_noop(x, y, modulus());
    lemma_mul_mod_noop(u, v, modulus());
}

/// Each wrapping operation is congruent to the operation on integers.
proof fn lemma_wraps(x: i64, y: i64)
    ensures
        congruent(i64_specs::wrapping_add(x, y) as int, x + y),
        congruent(i64_specs::wrapping_sub(x, y) as int, x - y),
        congruent(i64_specs::wrapping_mul(x, y) as int, x * y),
{
    reveal(congruent);
    let m = modulus();
    lemma_mod_multiples_vanish(1, x + y, m);
    lemma_mod_multiples_vanish(-1, x + y, m);
    lemma_mod_multiples_vanish(1, x - y, m);
    lemma_mod_multiples_vanish(-1, x - y, m);
    let z = x * y;
    lemma_mod_twice(z, m);
    lemma_mod_multiples_vanish(-1, z % m, m);
}

/// Components that stand for the same integers are the same sample.
pub proof fn lemma_same_sample(g: Gauss, h: Gauss, re: int, im: int)
    requires
        stands_for(g, re, im),
        stands_for(h, re, im),
    ensures
        g == h,
{
    reveal(congruent);
}

/// A sum or a difference stands for the sum or the difference of what its
/// operands stand for.
pub proof fn lemma_sum_stands(g: Gauss, gr: int, gi: int, h: Gauss, hr: int, hi: int)
    requires
        stands_for(g, gr, gi),
        stands_for(h, hr, hi),
    ensures
        stands_for(g.add_spec(h), gr + hr, gi + hi),
        stands_for(g.sub_spec(h), gr - hr, gi - hi),
{
    lemma_wraps(g.re, h.re);
    lemma_wraps(g.im, h.im);
    lemma_congruent_sum(g.re as int, gr, h.re as int, hr);
    lemma_congruent_sum(g.im as int, gi, h.im as int, hi);
    lemma_congruent_chain(g.add_spec(h).re as int, g.re + h.re, gr + hr);
    lemma_congruent_chain(g.add_spec(h).im as int, g.im + h.im, gi + hi);
    lemma_congruent_chain(g.sub_spec(h).re as int, g.re - h.re, gr - hr);
    lemma_congruent_chain(g.sub_spec(h).im as int, g.im - h.im, gi - hi);
}

/// A wrapped product of two components is congruent to the product of the
/// integers that they stand for.
proof fn lemma_wrapped_product(x: i64, u: int, y: i64, v: int)
    requires
        congruent(x as int, u),
        congruent(y as int, v),
    ensures
        congruent(i64_specs::wrapping_mul(x, y) as int, u * v),
{
    lemma_wraps(x, y);
    lemma_congruent_sum(x as int, u, y as int, v);
    lemma_congruent_chain(i64_specs::wrapping_mul(x, y) as int, x * y, u * v);
}

/// A product stands for the complex product of what its factors stand for.
pub proof fn lemma_product_stands(g: Gauss, gr: int, gi: int, h: Gauss, hr: int, hi: int)
    requires
        stands_for(g, gr, gi),
        stands_for(h, hr, hi),
    ensures
        stands_for(g.mul_spec(h), gr * hr - gi * hi, gi * hr + gr * hi),
{
    let rr = i64_specs::wrapping_mul(g.re, h.re);
    let ii = i64_specs::wrapping_mul(g.im, h.im);
    let ir = i64_specs::wrapping_mul(g.im, h.re);
    let ri = i64_specs::wrapping_mul(g.re, h.im);
    lemma_wrapped_product(g.re, gr, h.re, hr);
    lemma_wrapped_product(g.im, gi, h.im, hi);
    lemma_wrapped_product(g.im, gi, h.re, hr);
    lemma_wrapped_product(g.re, gr, h.im, hi);
    lemma_wraps(rr, ii);
    lemma_wraps(ir, ri);
    lemma_congruent_sum(rr as int, gr * hr, ii as int, gi * hi);
    lemma_congruent_sum(ir as int, gi * hr, ri as int, gr * hi);
    lemma_congruent_chain(g.mul_spec(h).re as int, rr - ii, gr * hr - gi * hi);
    lemma_congruent_chain(g.mul_spec(h).im as int, ir + ri, gi * hr + gr * hi);
}

/// A sample multiplied by `-i` stands for what it stood for, multiplied by `-i`.
pub proof fn lemma_div_i_stands(g: Gauss, gr: int, gi: int)
    requires
        stands_for(g, gr, gi),
    ensures
        stands_for(g.div_i_spec(), gi, -gr),
{
    lemma_wraps(0, g.re);
    lemma_congruent_self(0);
    lemma_congruent_sum(0, 0, g.re as int, gr);
    lemma_congruent_chain(g.div_i_spec().im as int, 0 - g.re, 0 - gr);
}

/// Every sample stands for its own components.
pub proof fn lemma_stands_for_itself(g: Gauss)
    ensures
        stands_for(g, g.re as int, g.im as int),
{
    lemma_congruent_self(g.re as int);
    lemma_congruent_self(g.im as int);
}

/// The two component identities behind the associativity of the complex
/// product.
proof fn lemma_triple_product(ar: int, ai: int, br: int, bi: int, cr: int, ci: int)
    ensures
        (ar * br - ai * bi) * cr - (ai * br + ar * bi) * ci == ar * (br * cr - bi * ci) - ai * (bi
            * cr + br * ci),
        (ai * br + ar * bi) * cr + (ar * br - ai * bi) * ci == ai * (br * cr - bi * ci) + ar * (bi
            * cr + br * ci),
{
    lemma_mul_is_associative(ar, br, cr);
    lemma_mul_is_associative(ai, bi, cr);
    lemma_mul_is_associative(ai, br, ci);
    lemma_mul_is_associative(ar, bi, ci);
    lemma_mul_is_associative(ai, br, cr);
    lemma_mul_is_associative(ar, bi, cr);
    lemma_mul_is_associative(ar, br, ci);
    lemma_mul_is_associative(ai, bi, ci);
    let (rr, ii, ir, ri) = (ar * br, ai * bi, ai * br, ar * bi);
    let (srr, sii, sir, sri) = (br * cr, bi * ci, bi * cr, br * ci);
    assert((rr - ii) * cr == rr * cr - ii * cr) by (nonlinear_arith);
    assert((ir + ri) * ci == ir * ci + ri * ci) by (nonlinear_arith);
    assert((ir + ri) * cr == ir * cr + ri * cr) by (nonlinear_arith);
    assert((rr - ii) * ci == rr * ci - ii * ci) by (nonlinear_arith);
    assert(ar * (srr - sii) == ar * srr - ar * sii) by (nonlinear_arith);
    assert(ai * (sir + sri) == ai * sir + ai * sri) by (nonlinear_arith);
    assert(ai * (srr - sii) == ai * srr - ai * sii) by (nonlinear_arith);
    assert(ar * (sir + sri) == ar * sir + ar * sri) by (nonlinear_arith);
}

impl Exact for Gauss {
    proof fn add_commutes(a: Self, b: Self) {
    }

    proof fn add_associates(a: Self, b: Self, c: Self) {
    }

    proof fn sub_undoes_add(a: Self, b: Self) {
    }

    proof fn add_undoes_sub(a: Self, b: Self) {
    }

    proof fn mul_associates(a: Self, b: Self, c: Self) {
        let (ar, ai, br, bi, cr, ci) = (
            a.re as int,
            a.im as int,
            b.re as int,
            b.im as int,
            c.re as int,
            c.im as int,
        );
        let (pr, pi) = (ar * br - ai * bi, ai * br + ar * bi);
        let (qr, qi) = (br * cr - bi * ci, bi * cr + br * ci);
        lemma_stands_for_itself(a);
        lemma_stands_for_itself(b);
        lemma_stands_for_itself(c);
        lemma_product_stands(a, ar, ai, b, br, bi);
        lemma_product_stands(a.mul_spec(b), pr, pi, c, cr, ci);
        lemma_product_stands(b, br, bi, c, cr, ci);
        lemma_product_stands(a, ar, ai, b.mul_spec(c), qr, qi);
        lemma_triple_product(ar, ai, br, bi, cr, ci);
        lemma_same_sample(
            a.mul_spec(b).mul_spec(c),
            a.mul_spec(b.mul_spec(c)),
            pr * cr - pi * ci,
            pi * cr + pr * ci,
        );
    }

    proof fn mul_distributes_left(a: Self, b: Self, c: Self) {
        let (ar, ai, br, bi, cr, ci) = (
            a.re as int,
            a.im as int,
            b.re as int,
            b.im as int,
            c.re as int,
            c.im as int,
        );
        lemma_stands_for_itself(a);
        lemma_stands_for_itself(b);
        lemma_stands_for_itself(c);
        lemma_sum_stands(b, br, bi, c, cr, ci);
        lemma_product_stands(a, ar, ai, b.add_spec(c), br + cr, bi + ci);
        lemma_product_stands(a, ar, ai, b, br, bi);
        lemma_product_stands(a, ar, ai, c, cr, ci);
        lemma_sum_stands(
            a.mul_spec(b),
            ar * br - ai * bi,
            ai * br + ar * bi,
            a.mul_spec(c),
            ar * cr - ai * ci,
            ai * cr + ar * ci,
        );
        assert(ar * (br + cr) - ai * (bi + ci) == (ar * br - ai * bi) + (ar * cr - ai * ci))
            by (nonlinear_arith);
        assert(ai * (br + cr) + ar * (bi + ci) == (ai * br + ar * bi) + (ai * cr + ar * ci))
            by (nonlinear_arith);
        lemma_same_sample(
            a.mul_spec(b.add_spec(c)),
            a.mul_spec(b).add_spec(a.mul_spec(c)),
            ar * (br + cr) - ai * (bi + ci),
            ai * (br + cr) + ar * (bi + ci),
        );
    }

    proof fn mul_distributes_right(a: Self, b: Self, c: Self) {
        let (ar, ai, br, bi, cr, ci) = (
            a.re as int,
            a.im as int,
            b.re as int,
            b.im as int,
            c.re as int,
            c.im as int,
        );
        lemma_stands_for_itself(a);
        lemma_stands_for_itself(b);
        lemma_stands_for_itself(c);
        lemma_sum_stands(a, ar, ai, b, br, bi);
        lemma_product_stands(a.add_spec(b), ar + br, ai + bi, c, cr, ci);
        lemma_product_stands(a, ar, ai, c, cr, ci);
        lemma_product_stands(b, br, bi, c, cr, ci);
        lemma_sum_stands(
            a.mul_spec(c),
            ar * cr - ai * ci,
            ai * cr + ar * ci,
            b.mul_spec(c),
            br * cr - bi * ci,
            bi * cr + br * ci,
        );
        assert((ar + br) * cr - (ai + bi) * ci == (ar * cr - ai * ci) + (br * cr - bi * ci))
            by (nonlinear_arith);
        assert((ai + bi) * cr + (ar + br) * ci == (ai * cr + ar * ci) + (bi * cr + br * ci))
            by (nonlinear_arith);
        lemma_same_sample(
            a.add_spec(b).mul_spec(c),
            a.mul_spec(c).add_spec(b.mul_spec(c)),
            (ar + br) * cr - (ai + bi) * ci,
            (ai + bi) * cr + (ar + br) * ci,
        );
    }

    proof fn div_i_of_product(a: Self, b: Self) {
        let (ar, ai, br, bi) = (a.re as int, a.im as int, b.re as int, b.im as int);
        lemma_stands_for_itself(a);
        lemma_stands_for_itself(b);
        lemma_product_stands(a, ar, ai, b, br, bi);
        lemma_div_i_stands(a.mul_spec(b), ar * br - ai * bi, ai * br + ar * bi);
        lemma_div_i_stands(b, br, bi);
        lemma_product_stands(a, ar, ai, b.div_i_spec(), bi, -br);
        assert(ar * bi - ai * (-br) == ai * br + ar * bi) by (nonlinear_arith);
        assert(ai * bi + ar * (-br) == -(ar * br - ai * bi)) by (nonlinear_arith);
        lemma_same_sample(
            a.mul_spec(b).div_i_spec(),
            a.mul_spec(b.div_i_spec()),
            ai * br + ar * bi,
            -(ar * br - ai * bi),
        );
    }

    proof fn div_i_of_sum(a: Self, b: Self) {
    }
}

} // verus!
