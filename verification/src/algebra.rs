//! The numeric domains a polynomial can take its coefficients from.
//!
//! A coefficient type stands for a mathematical value. The
//! operations of a domain are stated over those values, and the laws that
//! the polynomial algorithms rely on are part of the domain: a type that
//! implements [`Domain`] proves them for its own values.

use vstd::prelude::*;

verus! {

/// The values of a commutative ring with identity, and the laws they obey.
pub trait Domain: Sized {
    /// The mathematical values that the type stands for.
    type Value;

    /// The value that `self` stands for.
    spec fn value(&self) -> Self::Value;

    /// The representation invariant of the type.
    spec fn well_formed(&self) -> bool;

    /// The additive identity.
    spec fn zero_value() -> Self::Value;

    /// The multiplicative identity.
    spec fn one_value() -> Self::Value;

    /// `a + b`.
    spec fn sum(a: Self::Value, b: Self::Value) -> Self::Value;

    /// The additive inverse.
    spec fn negation(a: Self::Value) -> Self::Value;

    /// `a * b`.
    spec fn product(a: Self::Value, b: Self::Value) -> Self::Value;

    proof fn law_sum_commutes(a: Self::Value, b: Self::Value)
        ensures
            Self::sum(a, b) == Self::sum(b, a),
    ;

    proof fn law_sum_associates(a: Self::Value, b: Self::Value, c: Self::Value)
        ensures
            Self::sum(Self::sum(a, b), c) == Self::sum(a, Self::sum(b, c)),
    ;

    proof fn law_sum_zero(a: Self::Value)
        ensures
            Self::sum(a, Self::zero_value()) == a,
    ;

    proof fn law_sum_negation(a: Self::Value)
        ensures
            Self::sum(a, Self::negation(a)) == Self::zero_value(),
    ;

    proof fn law_product_commutes(a: Self::Value, b: Self::Value)
        ensures
            Self::product(a, b) == Self::product(b, a),
    ;

    proof fn law_product_associates(a: Self::Value, b: Self::Value, c: Self::Value)
        ensures
            Self::product(Self::product(a, b), c) == Self::product(a, Self::product(b, c)),
    ;

    proof fn law_product_one(a: Self::Value)
        ensures
            Self::product(a, Self::one_value()) == a,
    ;

    proof fn law_product_distributes(a: Self::Value, b: Self::Value, c: Self::Value)
        ensures
            Self::product(a, Self::sum(b, c)) == Self::sum(
                Self::product(a, b),
                Self::product(a, c),
            ),
    ;
}

/// The operations of a commutative ring with identity.
pub trait Ring: Domain {
    fn zero() -> (r: Self)
        ensures
            r.well_formed(),
            r.value() == Self::zero_value(),
    ;

    fn one() -> (r: Self)
        ensures
            r.well_formed(),
            r.value() == Self::one_value(),
    ;

    fn is_zero(&self) -> (b: bool)
        requires
            self.well_formed(),
        ensures
            b == (self.value() == Self::zero_value()),
    ;

    fn is_one(&self) -> (b: bool)
        requires
            self.well_formed(),
        ensures
            b == (self.value() == Self::one_value()),
    ;

    /// A copy of the value.
    fn duplicate(&self) -> (r: Self)
        requires
            self.well_formed(),
        ensures
            r.well_formed(),
            r.value() == self.value(),
    ;

    fn plus(&self, rhs: &Self) -> (r: Self)
        requires
            self.well_formed(),
            rhs.well_formed(),
        ensures
            r.well_formed(),
            r.value() == Self::sum(self.value(), rhs.value()),
    ;

    fn minus(&self, rhs: &Self) -> (r: Self)
        requires
            self.well_formed(),
            rhs.well_formed(),
        ensures
            r.well_formed(),
            r.value() == difference::<Self>(self.value(), rhs.value()),
    ;

    fn times(&self, rhs: &Self) -> (r: Self)
        requires
            self.well_formed(),
            rhs.well_formed(),
        ensures
            r.well_formed(),
            r.value() == Self::product(self.value(), rhs.value()),
    ;

    fn negated(&self) -> (r: Self)
        requires
            self.well_formed(),
        ensures
            r.well_formed(),
            r.value() == Self::negation(self.value()),
    ;

    /// The value of a natural number in the domain: `1 + 1 + ... + 1`.
    fn from_u32(n: u32) -> (r: Self)
        ensures
            r.well_formed(),
            r.value() == natural::<Self>(n as nat),
    ;
}

/// A ring in which every value but zero divides every value.
pub trait Field: Ring {
    /// The quotient of `a` by `b`; it has a meaning for `b` other than zero.
    spec fn quotient(a: Self::Value, b: Self::Value) -> Self::Value;

    proof fn law_quotient(a: Self::Value, b: Self::Value)
        requires
            b != Self::zero_value(),
        ensures
            Self::product(Self::quotient(a, b), b) == a,
    ;

    fn divided_by(&self, rhs: &Self) -> (r: Self)
        requires
            self.well_formed(),
            rhs.well_formed(),
            rhs.value() != Self::zero_value(),
        ensures
            r.well_formed(),
            r.value() == Self::quotient(self.value(), rhs.value()),
    ;
}

/// A field in which a sum of two squares is zero only where both numbers
/// are, as in the rational and the real numbers.
pub trait FormallyReal: Field {
    proof fn law_squares(a: Self::Value, b: Self::Value)
        requires
            Self::sum(Self::product(a, a), Self::product(b, b)) == Self::zero_value(),
        ensures
            a == Self::zero_value(),
            b == Self::zero_value(),
    ;
}

/// A ring whose values are negative, zero or positive.
pub trait Signed: Ring {
    /// The value is below zero.
    spec fn negative(a: Self::Value) -> bool;

    fn is_negative(&self) -> (b: bool)
        requires
            self.well_formed(),
        ensures
            b == Self::negative(self.value()),
    ;

    /// The value without its sign.
    fn abs(&self) -> (r: Self)
        requires
            self.well_formed(),
        ensures
            r.well_formed(),
            r.value() == if Self::negative(self.value()) {
                Self::negation(self.value())
            } else {
                self.value()
            },
    ;
}

/// The value without its sign: `-a` for a negative `a`, else `a`.
pub open spec fn magnitude<T: Signed>(a: T::Value) -> T::Value {
    if T::negative(a) {
        T::negation(a)
    } else {
        a
    }
}

/// `a - b`, that is `a + (-b)`.
pub open spec fn difference<T: Domain>(a: T::Value, b: T::Value) -> T::Value {
    T::sum(a, T::negation(b))
}

/// The natural number `n` in the domain: the sum of `n` ones.
pub open spec fn natural<T: Domain>(n: nat) -> T::Value
    decreases n,
{
    if n == 0 {
        T::zero_value()
    } else {
        T::sum(natural::<T>((n - 1) as nat), T::one_value())
    }
}

/// `x` multiplied `n` times with itself; one for `n == 0`.
pub open spec fn power<T: Domain>(x: T::Value, n: nat) -> T::Value
    decreases n,
{
    if n == 0 {
        T::one_value()
    } else {
        T::product(power::<T>(x, (n - 1) as nat), x)
    }
}

/// `x` raised to the power `exponent`, by repeated multiplication.
pub fn raise<T: Ring>(x: &T, exponent: u32) -> (r: T)
    requires
        x.well_formed(),
    ensures
        r.well_formed(),
        r.value() == power::<T>(x.value(), exponent as nat),
{
    let mut result = T::one();
    let mut n: u32 = 0;
    while n < exponent
        invariant
            n <= exponent,
            x.well_formed(),
            result.well_formed(),
            result.value() == power::<T>(x.value(), n as nat),
        decreases exponent - n,
    {
        result = result.times(x);
        n += 1;
    }
    result
}

/// Zero is its own additive inverse.
pub proof fn lemma_negation_of_zero<T: Domain>()
    ensures
        T::negation(T::zero_value()) == T::zero_value(),
{
    let z = T::zero_value();
    T::law_sum_negation(z);
    T::law_sum_commutes(z, T::negation(z));
    T::law_sum_zero(T::negation(z));
}

/// `0 + a == a`.
pub proof fn lemma_zero_sum<T: Domain>(a: T::Value)
    ensures
        T::sum(T::zero_value(), a) == a,
{
    T::law_sum_commutes(T::zero_value(), a);
    T::law_sum_zero(a);
}

/// A value is determined by what it adds up to with another: `a + c == b + c`
/// only for `a == b`.
pub proof fn lemma_sum_cancels<T: Domain>(a: T::Value, b: T::Value, c: T::Value)
    requires
        T::sum(a, c) == T::sum(b, c),
    ensures
        a == b,
{
    let n = T::negation(c);
    T::law_sum_associates(a, c, n);
    T::law_sum_associates(b, c, n);
    T::law_sum_negation(c);
    T::law_sum_zero(a);
    T::law_sum_zero(b);
}

/// `a * 0 == 0` and `0 * a == 0`.
pub proof fn lemma_product_zero<T: Domain>(a: T::Value)
    ensures
        T::product(a, T::zero_value()) == T::zero_value(),
        T::product(T::zero_value(), a) == T::zero_value(),
{
    let z = T::zero_value();
    let p = T::product(a, z);
    T::law_sum_zero(z);
    T::law_product_distributes(a, z, z);
    // p == p + p, so 0 + p == p + p
    lemma_zero_sum::<T>(p);
    lemma_sum_cancels::<T>(z, p, p);
    T::law_product_commutes(a, z);
}

/// `(a + b) * c == a * c + b * c`.
pub proof fn lemma_product_distributes_left<T: Domain>(a: T::Value, b: T::Value, c: T::Value)
    ensures
        T::product(T::sum(a, b), c) == T::sum(T::product(a, c), T::product(b, c)),
{
    T::law_product_commutes(T::sum(a, b), c);
    T::law_product_distributes(c, a, b);
    T::law_product_commutes(c, a);
    T::law_product_commutes(c, b);
}

/// `a - a == 0` and `a - 0 == a`.
pub proof fn lemma_difference_basics<T: Domain>(a: T::Value)
    ensures
        difference::<T>(a, a) == T::zero_value(),
        difference::<T>(a, T::zero_value()) == a,
{
    T::law_sum_negation(a);
    lemma_negation_of_zero::<T>();
    T::law_sum_zero(a);
}

/// `(-a) * b == -(a * b)`.
pub proof fn lemma_product_negation<T: Domain>(a: T::Value, b: T::Value)
    ensures
        T::product(T::negation(a), b) == T::negation(T::product(a, b)),
{
    let na = T::negation(a);
    // a*b + (-a)*b == (a + -a) * b == 0
    lemma_product_distributes_left::<T>(a, na, b);
    T::law_sum_negation(a);
    lemma_product_zero::<T>(b);
    // a*b + -(a*b) == 0
    T::law_sum_negation(T::product(a, b));
    T::law_sum_commutes(T::product(a, b), T::product(na, b));
    T::law_sum_commutes(T::product(a, b), T::negation(T::product(a, b)));
    lemma_sum_cancels::<T>(T::product(na, b), T::negation(T::product(a, b)), T::product(a, b));
}

/// `a * (-1) == -a`.
pub proof fn lemma_product_minus_one<T: Domain>(a: T::Value)
    ensures
        T::product(a, T::negation(T::one_value())) == T::negation(a),
{
    let one = T::one_value();
    T::law_product_commutes(a, T::negation(one));
    lemma_product_negation::<T>(one, a);
    T::law_product_commutes(one, a);
    T::law_product_one(a);
}

/// `-(a + b) == (-a) + (-b)`.
pub proof fn lemma_negation_of_sum<T: Domain>(a: T::Value, b: T::Value)
    ensures
        T::negation(T::sum(a, b)) == T::sum(T::negation(a), T::negation(b)),
{
    let na = T::negation(a);
    let nb = T::negation(b);
    let s = T::sum(a, b);
    // (na + nb) + (a + b) == 0
    T::law_sum_associates(na, nb, s);
    T::law_sum_commutes(a, b);
    T::law_sum_associates(nb, b, a);
    T::law_sum_commutes(nb, b);
    T::law_sum_negation(b);
    lemma_zero_sum::<T>(a);
    T::law_sum_commutes(na, a);
    T::law_sum_negation(a);
    assert(T::sum(T::sum(na, nb), s) == T::zero_value());
    T::law_sum_negation(s);
    T::law_sum_commutes(s, T::negation(s));
    lemma_sum_cancels::<T>(T::negation(s), T::sum(na, nb), s);
}

/// `(x - y) * z == x * z - y * z`, and `z * (x - y) == z * x - z * y`.
pub proof fn lemma_product_difference<T: Domain>(x: T::Value, y: T::Value, z: T::Value)
    ensures
        T::product(difference::<T>(x, y), z) == difference::<T>(T::product(x, z), T::product(y, z)),
        T::product(z, difference::<T>(x, y)) == difference::<T>(T::product(z, x), T::product(z, y)),
{
    lemma_product_distributes_left::<T>(x, T::negation(y), z);
    lemma_product_negation::<T>(y, z);
    T::law_product_commutes(z, difference::<T>(x, y));
    T::law_product_commutes(z, x);
    T::law_product_commutes(z, y);
}

/// `(a + b) + (c + d) == (a + c) + (b + d)`.
pub proof fn lemma_sum_interchange<T: Domain>(a: T::Value, b: T::Value, c: T::Value, d: T::Value)
    ensures
        T::sum(T::sum(a, b), T::sum(c, d)) == T::sum(T::sum(a, c), T::sum(b, d)),
{
    T::law_sum_associates(a, b, T::sum(c, d));
    T::law_sum_associates(b, c, d);
    T::law_sum_commutes(b, c);
    T::law_sum_associates(c, b, d);
    T::law_sum_associates(a, c, T::sum(b, d));
}

/// `-(-a) == a`.
pub proof fn lemma_double_negation<T: Domain>(a: T::Value)
    ensures
        T::negation(T::negation(a)) == a,
{
    let n = T::negation(a);
    T::law_sum_negation(a);
    T::law_sum_negation(n);
    T::law_sum_commutes(a, n);
    T::law_sum_commutes(n, T::negation(n));
    lemma_sum_cancels::<T>(T::negation(n), a, n);
}

/// `(a * b) * c == (a * c) * b`.
pub proof fn lemma_product_swaps<T: Domain>(a: T::Value, b: T::Value, c: T::Value)
    ensures
        T::product(T::product(a, b), c) == T::product(T::product(a, c), b),
{
    T::law_product_associates(a, b, c);
    T::law_product_commutes(b, c);
    T::law_product_associates(a, c, b);
}

/// What is multiplied by a value other than zero is determined by the
/// product: `a * c == b * c` only for `a == b`.
pub proof fn lemma_product_cancels<T: Field>(a: T::Value, b: T::Value, c: T::Value)
    requires
        T::product(a, c) == T::product(b, c),
        c != T::zero_value(),
    ensures
        a == b,
{
    let inverse = T::quotient(T::one_value(), c);
    T::law_quotient(T::one_value(), c);
    T::law_product_commutes(inverse, c);
    T::law_product_associates(a, c, inverse);
    T::law_product_associates(b, c, inverse);
    T::law_product_one(a);
    T::law_product_one(b);
}

} // verus!
