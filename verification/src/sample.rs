//! The arithmetic that a butterfly needs from a sample.

use vstd::prelude::*;

verus! {

/// A complex-valued sample.
///
/// Each operation returns a new value and is a function of its operands
/// alone: the executable method computes what the spec function names.
/// A type whose arithmetic is not modelled, such as one of rounded
/// components, names each operation by itself.
pub trait Sample: Copy {
    /// The sum of two samples.
    spec fn add_spec(self, rhs: Self) -> Self;

    /// The difference of two samples.
    spec fn sub_spec(self, rhs: Self) -> Self;

    /// The complex product of two samples.
    spec fn mul_spec(self, rhs: Self) -> Self;

    /// The sample multiplied by `-i`: `(re, im)` becomes `(im, -re)`.
    spec fn div_i_spec(self) -> Self;

    fn add(self, rhs: Self) -> (r: Self)
        ensures
            r == self.add_spec(rhs),
    ;

    fn sub(self, rhs: Self) -> (r: Self)
        ensures
            r == self.sub_spec(rhs),
    ;

    fn mul(self, rhs: Self) -> (r: Self)
        ensures
            r == self.mul_spec(rhs),
    ;

    fn div_i(self) -> (r: Self)
        ensures
            r == self.div_i_spec(),
    ;
}

/// A sample type whose arithmetic is exact: sums, differences and products
/// obey the laws of a ring, and multiplying by `-i` commutes with both.
///
/// Rounded arithmetic does not qualify; what is proved through this trait
/// holds of rounded samples only up to their rounding.
pub trait Exact: Sample {
    /// `a + b == b + a`
    proof fn add_commutes(a: Self, b: Self)
        ensures
            a.add_spec(b) == b.add_spec(a),
    ;

    /// `(a + b) + c == a + (b + c)`
    proof fn add_associates(a: Self, b: Self, c: Self)
        ensures
            a.add_spec(b).add_spec(c) == a.add_spec(b.add_spec(c)),
    ;

    /// `(a + b) - b == a`
    proof fn sub_undoes_add(a: Self, b: Self)
        ensures
            a.add_spec(b).sub_spec(b) == a,
    ;

    /// `(a - b) + b == a`
    proof fn add_undoes_sub(a: Self, b: Self)
        ensures
            a.sub_spec(b).add_spec(b) == a,
    ;

    /// `(a * b) * c == a * (b * c)`
    proof fn mul_associates(a: Self, b: Self, c: Self)
        ensures
            a.mul_spec(b).mul_spec(c) == a.mul_spec(b.mul_spec(c)),
    ;

    /// `a * (b + c) == a * b + a * c`
    proof fn mul_distributes_left(a: Self, b: Self, c: Self)
        ensures
            a.mul_spec(b.add_spec(c)) == a.mul_spec(b).add_spec(a.mul_spec(c)),
    ;

    /// `(a + b) * c == a * c + b * c`
    proof fn mul_distributes_right(a: Self, b: Self, c: Self)
        ensures
            a.add_spec(b).mul_spec(c) == a.mul_spec(c).add_spec(b.mul_spec(c)),
    ;

    /// `-i * (a * b) == a * (-i * b)`
    proof fn div_i_of_product(a: Self, b: Self)
        ensures
            a.mul_spec(b).div_i_spec() == a.mul_spec(b.div_i_spec()),
    ;

    /// `-i * (a + b) == -i * a + -i * b`
    proof fn div_i_of_sum(a: Self, b: Self)
        ensures
            a.add_spec(b).div_i_spec() == a.div_i_spec().add_spec(b.div_i_spec()),
    ;
}

} // verus!
