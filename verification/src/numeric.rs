//! The abstract "real number" capability that every algorithm of the
//! engine is parametrized over.
//!
//! The engine never hardcodes one floating-point width: a caller picks a
//! concrete number type (typically a wrapper around a machine float) and
//! implements [`Numeric`] for it, choosing the precision of the sample.
//! The trait packages the
//! operations the algorithms use (ordering, field operations, conversion
//! from counts) together with the laws of an ordered field that the
//! correctness arguments rest on.  An exact-arithmetic implementation
//! satisfies the laws outright; a machine floating-point implementation
//! satisfies them up to rounding, and the results computed through the
//! interface inherit the rounding of the chosen instantiation.
use vstd::prelude::*;

verus! {

/// The number capability: a totally ordered type with addition,
/// subtraction, multiplication, division, a few power operations and a
/// conversion from element counts.
///
/// Each executable operation is pinned to an abstract spec-level
/// counterpart (`add` returns exactly `sadd`, and so on), so any two runs
/// of a classification over the same sample take the same decisions and
/// produce the same boundaries.  The `law_*` obligations state the
/// ordered-field facts the proofs use.
pub trait Numeric: Sized + Copy {
    /// `self <= other` in the order of the numbers.
    spec fn sle(self, other: Self) -> bool;

    /// The sum `self + other`.
    spec fn sadd(self, other: Self) -> Self;

    /// The difference `self - other`.
    spec fn ssub(self, other: Self) -> Self;

    /// The product `self * other`.
    spec fn smul(self, other: Self) -> Self;

    /// The quotient `self / other` (an arbitrary value when `other` is
    /// zero: the implementation must return something and may not panic,
    /// as a machine float returns an infinity or a quiet NaN).
    spec fn sdiv(self, other: Self) -> Self;

    /// The square root of `self` (an arbitrary value on negatives).
    spec fn ssqrt(self) -> Self;

    /// `self` raised to the integer power `n`.
    spec fn spowi(self, n: int) -> Self;

    /// `self` raised to the power `e`.
    spec fn spowf(self, e: Self) -> Self;

    /// The number standing for the count `n`.
    spec fn sfrom(n: nat) -> Self;

    proof fn law_le_refl(x: Self)
        ensures
            x.sle(x),
    ;

    proof fn law_le_total(x: Self, y: Self)
        ensures
            x.sle(y) || y.sle(x),
    ;

    proof fn law_le_trans(x: Self, y: Self, z: Self)
        requires
            x.sle(y),
            y.sle(z),
        ensures
            x.sle(z),
    ;

    proof fn law_add_le(a: Self, b: Self, c: Self, d: Self)
        requires
            a.sle(b),
            c.sle(d),
        ensures
            a.sadd(c).sle(b.sadd(d)),
    ;

    proof fn law_add_lt(a: Self, b: Self, c: Self, d: Self)
        requires
            a.sle(b),
            !d.sle(c),
        ensures
            !b.sadd(d).sle(a.sadd(c)),
    ;

    proof fn law_add_comm(a: Self, b: Self)
        ensures
            a.sadd(b) == b.sadd(a),
    ;

    proof fn law_add_zero(a: Self)
        ensures
            a.sadd(Self::sfrom(0)) == a,
    ;

    proof fn law_from_le(m: nat, n: nat)
        requires
            m <= n,
        ensures
            Self::sfrom(m).sle(Self::sfrom(n)),
    ;

    proof fn law_from_lt(m: nat, n: nat)
        requires
            m < n,
        ensures
            !Self::sfrom(n).sle(Self::sfrom(m)),
    ;

    proof fn law_mul_from_zero(x: Self)
        ensures
            Self::sfrom(0).smul(x) == Self::sfrom(0),
    ;

    proof fn law_mul_from_succ(n: nat, x: Self)
        ensures
            Self::sfrom(n + 1).smul(x) == Self::sfrom(n).smul(x).sadd(x),
    ;

    proof fn law_mul_le(a: Self, b: Self, c: Self)
        requires
            a.sle(b),
            Self::sfrom(0).sle(c),
        ensures
            a.smul(c).sle(b.smul(c)),
    ;

    proof fn law_div_le(a: Self, b: Self, c: Self)
        requires
            a.sle(b),
            !c.sle(Self::sfrom(0)),
        ensures
            a.sdiv(c).sle(b.sdiv(c)),
    ;

    proof fn law_div_lt(a: Self, b: Self, c: Self)
        requires
            !b.sle(a),
            !c.sle(Self::sfrom(0)),
        ensures
            !b.sdiv(c).sle(a.sdiv(c)),
    ;

    proof fn law_div_nonneg(a: Self, b: Self)
        requires
            Self::sfrom(0).sle(a),
            !b.sle(Self::sfrom(0)),
        ensures
            Self::sfrom(0).sle(a.sdiv(b)),
    ;

    proof fn law_div_mul_exact(a: Self, b: Self)
        requires
            !b.sle(Self::sfrom(0)),
        ensures
            b.smul(a).sdiv(b) == a,
    ;

    proof fn law_mul_div_exact(a: Self, b: Self)
        requires
            !b.sle(Self::sfrom(0)),
        ensures
            b.smul(a.sdiv(b)) == a,
    ;

    proof fn law_sub_add(a: Self, b: Self)
        ensures
            a.sadd(b.ssub(a)) == b,
    ;

    proof fn law_sub_nonneg(a: Self, b: Self)
        requires
            a.sle(b),
        ensures
            Self::sfrom(0).sle(b.ssub(a)),
    ;

    proof fn law_add_assoc(a: Self, b: Self, c: Self)
        ensures
            a.sadd(b).sadd(c) == a.sadd(b.sadd(c)),
    ;

    proof fn law_mul_distrib(a: Self, b: Self, c: Self)
        ensures
            a.sadd(b).smul(c) == a.smul(c).sadd(b.smul(c)),
    ;

    fn le(self, other: Self) -> (r: bool)
        ensures
            r == self.sle(other),
    ;

    fn add(self, other: Self) -> (r: Self)
        ensures
            r == self.sadd(other),
    ;

    fn sub(self, other: Self) -> (r: Self)
        ensures
            r == self.ssub(other),
    ;

    fn mul(self, other: Self) -> (r: Self)
        ensures
            r == self.smul(other),
    ;

    fn div(self, other: Self) -> (r: Self)
        ensures
            r == self.sdiv(other),
    ;

    fn sqrt(self) -> (r: Self)
        ensures
            r == self.ssqrt(),
    ;

    fn powi(self, n: i32) -> (r: Self)
        ensures
            r == self.spowi(n as int),
    ;

    fn powf(self, e: Self) -> (r: Self)
        ensures
            r == self.spowf(e),
    ;

    fn from_count(n: u64) -> (r: Self)
        ensures
            r == Self::sfrom(n as nat),
    ;
}

/// `a < b` in the order of the numbers.
pub open spec fn slt<T: Numeric>(a: T, b: T) -> bool {
    !b.sle(a)
}

/// `x` is at least zero.
pub open spec fn nonneg<T: Numeric>(x: T) -> bool {
    T::sfrom(0).sle(x)
}

/// `x` is strictly above zero.
pub open spec fn pos<T: Numeric>(x: T) -> bool {
    slt(T::sfrom(0), x)
}

} // verus!
