//! Complex numbers over a ring.

use crate::algebra;
use crate::algebra::{difference, natural, Domain, Field, FormallyReal, Ring};
use crate::integer::Integer;
use crate::polynomial::display::{
    multiplication_sign, write_multiplication_sign, CoefficientFormat, PolynomialFormat,
};
use crate::text::{Literal, PlainText};
use crate::rational::Rational;
use num::{BigInt, BigRational};
use vstd::prelude::*;
use vstd::string::StringExecFns;

verus! {

/// A complex number `re + im * i`.
#[derive(Clone, Debug, PartialEq, Eq)]
pub struct Complex<T> {
    /// The real part.
    pub re: T,
    /// The imaginary part.
    pub im: T,
}

impl<T> Complex<T> {
    /// The complex number `re + im * i`.
    pub fn new(re: T, im: T) -> (r: Complex<T>)
        ensures
            r.re == re,
            r.im == im,
    {
        Complex { re, im }
    }
}

impl<T: Domain> Domain for Complex<T> {
    type Value = (T::Value, T::Value);

    open spec fn value(&self) -> (T::Value, T::Value) {
        (self.re.value(), self.im.value())
    }

    open spec fn well_formed(&self) -> bool {
        self.re.well_formed() && self.im.well_formed()
    }

    open spec fn zero_value() -> (T::Value, T::Value) {
        (T::zero_value(), T::zero_value())
    }

    open spec fn one_value() -> (T::Value, T::Value) {
        (T::one_value(), T::zero_value())
    }

    open spec fn sum(a: (T::Value, T::Value), b: (T::Value, T::Value)) -> (T::Value, T::Value) {
        (T::sum(a.0, b.0), T::sum(a.1, b.1))
    }

    open spec fn negation(a: (T::Value, T::Value)) -> (T::Value, T::Value) {
        (T::negation(a.0), T::negation(a.1))
    }

    /// `(a + bi) * (c + di) == (ac - bd) + (ad + bc)i`.
    open spec fn product(a: (T::Value, T::Value), b: (T::Value, T::Value)) -> (
        T::Value,
        T::Value,
    ) {
        (
            difference::<T>(T::product(a.0, b.0), T::product(a.1, b.1)),
            T::sum(T::product(a.0, b.1), T::product(a.1, b.0)),
        )
    }

    proof fn law_sum_commutes(a: (T::Value, T::Value), b: (T::Value, T::Value)) {
        T::law_sum_commutes(a.0, b.0);
        T::law_sum_commutes(a.1, b.1);
    }

    proof fn law_sum_associates(
        a: (T::Value, T::Value),
        b: (T::Value, T::Value),
        c: (T::Value, T::Value),
    ) {
        T::law_sum_associates(a.0, b.0, c.0);
        T::law_sum_associates(a.1, b.1, c.1);
    }

    proof fn law_sum_zero(a: (T::Value, T::Value)) {
        T::law_sum_zero(a.0);
        T::law_sum_zero(a.1);
    }

    proof fn law_sum_negation(a: (T::Value, T::Value)) {
        T::law_sum_negation(a.0);
        T::law_sum_negation(a.1);
    }

    proof fn law_product_commutes(a: (T::Value, T::Value), b: (T::Value, T::Value)) {
        T::law_product_commutes(a.0, b.0);
        T::law_product_commutes(a.1, b.1);
        T::law_product_commutes(a.0, b.1);
        T::law_product_commutes(a.1, b.0);
        T::law_sum_commutes(T::product(a.0, b.1), T::product(a.1, b.0));
    }

    proof fn law_product_associates(
        a: (T::Value, T::Value),
        b: (T::Value, T::Value),
        c: (T::Value, T::Value),
    ) {
        let ab = Self::product(a, b);
        let bc = Self::product(b, c);
        // the eight products of three parts, each by both groupings
        T::law_product_associates(a.0, b.0, c.0);
        T::law_product_associates(a.1, b.1, c.0);
        T::law_product_associates(a.0, b.1, c.1);
        T::law_product_associates(a.1, b.0, c.1);
        T::law_product_associates(a.0, b.0, c.1);
        T::law_product_associates(a.1, b.1, c.1);
        T::law_product_associates(a.0, b.1, c.0);
        T::law_product_associates(a.1, b.0, c.0);
        let x1 = T::product(a.0, T::product(b.0, c.0));
        let x2 = T::product(a.1, T::product(b.1, c.0));
        let x3 = T::product(a.0, T::product(b.1, c.1));
        let x4 = T::product(a.1, T::product(b.0, c.1));
        let y1 = T::product(a.0, T::product(b.0, c.1));
        let y2 = T::product(a.1, T::product(b.1, c.1));
        let y3 = T::product(a.0, T::product(b.1, c.0));
        let y4 = T::product(a.1, T::product(b.0, c.0));
        // the left grouping, expanded
        algebra::lemma_product_difference::<T>(
            T::product(a.0, b.0),
            T::product(a.1, b.1),
            c.0,
        );
        algebra::lemma_product_distributes_left::<T>(
            T::product(a.0, b.1),
            T::product(a.1, b.0),
            c.1,
        );
        algebra::lemma_product_difference::<T>(
            T::product(a.0, b.0),
            T::product(a.1, b.1),
            c.1,
        );
        algebra::lemma_product_distributes_left::<T>(
            T::product(a.0, b.1),
            T::product(a.1, b.0),
            c.0,
        );
        assert(Self::product(ab, c).0 == difference::<T>(
            difference::<T>(x1, x2),
            T::sum(x3, x4),
        ));
        assert(Self::product(ab, c).1 == T::sum(difference::<T>(y1, y2), T::sum(y3, y4)));
        // the right grouping, expanded
        algebra::lemma_product_difference::<T>(
            T::product(b.0, c.0),
            T::product(b.1, c.1),
            a.0,
        );
        T::law_product_distributes(a.1, T::product(b.0, c.1), T::product(b.1, c.0));
        T::law_product_distributes(a.0, T::product(b.0, c.1), T::product(b.1, c.0));
        algebra::lemma_product_difference::<T>(
            T::product(b.0, c.0),
            T::product(b.1, c.1),
            a.1,
        );
        assert(Self::product(a, bc).0 == difference::<T>(
            difference::<T>(x1, x3),
            T::sum(x4, x2),
        ));
        assert(Self::product(a, bc).1 == T::sum(T::sum(y1, y3), difference::<T>(y4, y2)));
        // both are the same sums in another order
        algebra::lemma_negation_of_sum::<T>(x3, x4);
        algebra::lemma_negation_of_sum::<T>(x4, x2);
        algebra::lemma_sum_interchange::<T>(x1, T::negation(x2), T::negation(x3), T::negation(x4));
        T::law_sum_commutes(T::negation(x4), T::negation(x2));
        algebra::lemma_sum_interchange::<T>(y1, T::negation(y2), y3, y4);
        T::law_sum_commutes(T::negation(y2), y4);
    }

    proof fn law_product_one(a: (T::Value, T::Value)) {
        T::law_product_one(a.0);
        T::law_product_one(a.1);
        algebra::lemma_product_zero::<T>(a.0);
        algebra::lemma_product_zero::<T>(a.1);
        algebra::lemma_difference_basics::<T>(a.0);
        algebra::lemma_zero_sum::<T>(a.1);
    }

    proof fn law_product_distributes(
        a: (T::Value, T::Value),
        b: (T::Value, T::Value),
        c: (T::Value, T::Value),
    ) {
        T::law_product_distributes(a.0, b.0, c.0);
        T::law_product_distributes(a.1, b.1, c.1);
        T::law_product_distributes(a.0, b.1, c.1);
        T::law_product_distributes(a.1, b.0, c.0);
        let x = T::product(a.0, b.0);
        let y = T::product(a.0, c.0);
        let z = T::product(a.1, b.1);
        let w = T::product(a.1, c.1);
        algebra::lemma_negation_of_sum::<T>(z, w);
        algebra::lemma_sum_interchange::<T>(x, y, T::negation(z), T::negation(w));
        algebra::lemma_sum_interchange::<T>(
            T::product(a.0, b.1),
            T::product(a.0, c.1),
            T::product(a.1, b.0),
            T::product(a.1, c.0),
        );
    }
}

/// The natural number `n` has the real part `n` and no imaginary part.
pub proof fn lemma_natural_complex<T: Domain>(n: nat)
    ensures
        natural::<Complex<T>>(n) == (natural::<T>(n), T::zero_value()),
    decreases n,
{
    if n > 0 {
        lemma_natural_complex::<T>((n - 1) as nat);
        T::law_sum_zero(T::zero_value());
    }
}

impl<T: Ring> Ring for Complex<T> {
    fn zero() -> (r: Complex<T>) {
        Complex { re: T::zero(), im: T::zero() }
    }

    fn one() -> (r: Complex<T>) {
        Complex { re: T::one(), im: T::zero() }
    }

    fn is_zero(&self) -> (b: bool) {
        self.re.is_zero() && self.im.is_zero()
    }

    fn is_one(&self) -> (b: bool) {
        self.re.is_one() && self.im.is_zero()
    }

    fn duplicate(&self) -> (r: Complex<T>) {
        Complex { re: self.re.duplicate(), im: self.im.duplicate() }
    }

    fn plus(&self, rhs: &Complex<T>) -> (r: Complex<T>) {
        Complex { re: self.re.plus(&rhs.re), im: self.im.plus(&rhs.im) }
    }

    fn minus(&self, rhs: &Complex<T>) -> (r: Complex<T>) {
        Complex { re: self.re.minus(&rhs.re), im: self.im.minus(&rhs.im) }
    }

    fn times(&self, rhs: &Complex<T>) -> (r: Complex<T>) {
        let re = self.re.times(&rhs.re).minus(&self.im.times(&rhs.im));
        let im = self.re.times(&rhs.im).plus(&self.im.times(&rhs.re));
        Complex { re, im }
    }

    fn negated(&self) -> (r: Complex<T>) {
        Complex { re: self.re.negated(), im: self.im.negated() }
    }

    fn from_u32(n: u32) -> (r: Complex<T>) {
        proof {
            lemma_natural_complex::<T>(n as nat);
        }
        Complex { re: T::from_u32(n), im: T::zero() }
    }
}

/// The sum of the squares of both parts.
pub open spec fn norm<T: Domain>(a: (T::Value, T::Value)) -> T::Value {
    T::sum(T::product(a.0, a.0), T::product(a.1, a.1))
}

/// `((a * c + b * d) * c) - ((b * c - a * d) * d) == a * (c * c + d * d)`.
proof fn lemma_quotient_real_part<T: Domain>(a: T::Value, b: T::Value, c: T::Value, d: T::Value)
    ensures
        difference::<T>(
            T::product(T::sum(T::product(a, c), T::product(b, d)), c),
            T::product(difference::<T>(T::product(b, c), T::product(a, d)), d),
        ) == T::product(a, norm::<T>((c, d))),
{
    let x = T::product(T::product(a, c), c);
    let y = T::product(T::product(b, d), c);
    let z = T::product(T::product(b, c), d);
    let w = T::product(T::product(a, d), d);
    algebra::lemma_product_distributes_left::<T>(T::product(a, c), T::product(b, d), c);
    algebra::lemma_product_difference::<T>(T::product(b, c), T::product(a, d), d);
    algebra::lemma_product_swaps::<T>(b, d, c);
    assert(y == z);
    // (x + y) - (y - w) == (x + y) + (w + (-y)) == (x + w) + (y + (-y))
    algebra::lemma_negation_of_sum::<T>(y, T::negation(w));
    algebra::lemma_double_negation::<T>(w);
    T::law_sum_commutes(T::negation(y), w);
    algebra::lemma_sum_interchange::<T>(x, y, w, T::negation(y));
    T::law_sum_negation(y);
    T::law_sum_zero(T::sum(x, w));
    // x + w == a * (c * c) + a * (d * d)
    T::law_product_associates(a, c, c);
    T::law_product_associates(a, d, d);
    T::law_product_distributes(a, T::product(c, c), T::product(d, d));
}

/// `((a * c + b * d) * d) + ((b * c - a * d) * c) == b * (c * c + d * d)`.
proof fn lemma_quotient_imaginary_part<T: Domain>(
    a: T::Value,
    b: T::Value,
    c: T::Value,
    d: T::Value,
)
    ensures
        T::sum(
            T::product(T::sum(T::product(a, c), T::product(b, d)), d),
            T::product(difference::<T>(T::product(b, c), T::product(a, d)), c),
        ) == T::product(b, norm::<T>((c, d))),
{
    let x = T::product(T::product(a, c), d);
    let y = T::product(T::product(b, d), d);
    let z = T::product(T::product(b, c), c);
    let w = T::product(T::product(a, d), c);
    algebra::lemma_product_distributes_left::<T>(T::product(a, c), T::product(b, d), d);
    algebra::lemma_product_difference::<T>(T::product(b, c), T::product(a, d), c);
    algebra::lemma_product_swaps::<T>(a, c, d);
    assert(x == w);
    // (x + y) + (z + (-x)) == (y + x) + (z + (-x)) == (y + z) + (x + (-x))
    T::law_sum_commutes(x, y);
    algebra::lemma_sum_interchange::<T>(y, x, z, T::negation(x));
    T::law_sum_negation(x);
    T::law_sum_zero(T::sum(y, z));
    // y + z == b * (d * d) + b * (c * c)
    T::law_product_associates(b, d, d);
    T::law_product_associates(b, c, c);
    T::law_product_distributes(b, T::product(d, d), T::product(c, c));
    T::law_sum_commutes(T::product(d, d), T::product(c, c));
}

impl<T: FormallyReal> Field for Complex<T> {
    /// `(a + bi) / (c + di) == ((ac + bd) + (bc - ad)i) / (c^2 + d^2)`.
    open spec fn quotient(a: (T::Value, T::Value), b: (T::Value, T::Value)) -> (
        T::Value,
        T::Value,
    ) {
        (
            T::quotient(T::sum(T::product(a.0, b.0), T::product(a.1, b.1)), norm::<T>(b)),
            T::quotient(
                difference::<T>(T::product(a.1, b.0), T::product(a.0, b.1)),
                norm::<T>(b),
            ),
        )
    }

    proof fn law_quotient(a: (T::Value, T::Value), b: (T::Value, T::Value)) {
        let n = norm::<T>(b);
        let above_re = T::sum(T::product(a.0, b.0), T::product(a.1, b.1));
        let above_im = difference::<T>(T::product(a.1, b.0), T::product(a.0, b.1));
        let re = T::quotient(above_re, n);
        let im = T::quotient(above_im, n);
        if n == T::zero_value() {
            T::law_squares(b.0, b.1);
        }
        T::law_quotient(above_re, n);
        T::law_quotient(above_im, n);
        // the real part of the product, multiplied by the norm
        algebra::lemma_product_difference::<T>(T::product(re, b.0), T::product(im, b.1), n);
        algebra::lemma_product_swaps::<T>(re, b.0, n);
        algebra::lemma_product_swaps::<T>(im, b.1, n);
        lemma_quotient_real_part::<T>(a.0, a.1, b.0, b.1);
        algebra::lemma_product_cancels::<T>(
            difference::<T>(T::product(re, b.0), T::product(im, b.1)),
            a.0,
            n,
        );
        // the imaginary part of the product, multiplied by the norm
        algebra::lemma_product_distributes_left::<T>(T::product(re, b.1), T::product(im, b.0), n);
        algebra::lemma_product_swaps::<T>(re, b.1, n);
        algebra::lemma_product_swaps::<T>(im, b.0, n);
        lemma_quotient_imaginary_part::<T>(a.0, a.1, b.0, b.1);
        algebra::lemma_product_cancels::<T>(
            T::sum(T::product(re, b.1), T::product(im, b.0)),
            a.1,
            n,
        );
    }

    fn divided_by(&self, rhs: &Complex<T>) -> (r: Complex<T>) {
        let norm = rhs.re.times(&rhs.re).plus(&rhs.im.times(&rhs.im));
        proof {
            if norm.value() == T::zero_value() {
                T::law_squares(rhs.re.value(), rhs.im.value());
            }
        }
        let re = self.re.times(&rhs.re).plus(&self.im.times(&rhs.im)).divided_by(&norm);
        let im = self.im.times(&rhs.re).minus(&self.re.times(&rhs.im)).divided_by(&norm);
        Complex { re, im }
    }
}

/// The text of a complex number: the real part, the sign of the imaginary
/// part, its magnitude, and `i`.
pub open spec fn complex_text<T: PlainText>(c: Complex<T>) -> Seq<char> {
    (if T::negative(c.re.value()) {
        "-"@
    } else {
        Seq::empty()
    }) + c.re.magnitude_text() + (if T::negative(c.im.value()) {
        "-"@
    } else {
        "+"@
    }) + c.im.magnitude_text() + "i"@
}

/// Appends the text of a complex number to `w`.
fn write_complex<T: PlainText>(c: &Complex<T>, w: &mut String)
    requires
        c.well_formed(),
    ensures
        final(w)@ == old(w)@ + complex_text(*c),
{
    if c.re.is_negative() {
        w.append("-");
    }
    let re = c.re.magnitude_to_text();
    w.append(re.as_str());
    if c.im.is_negative() {
        w.append("-");
    } else {
        w.append("+");
    }
    let im = c.im.magnitude_to_text();
    w.append(im.as_str());
    w.append("i");
    assert(w@ =~= old(w)@ + complex_text(*c));
}

/// The text of a complex coefficient with both parts: after the `+` of a
/// term that does not lead, the number, in brackets and followed by the
/// multiplication sign in every term but the constant one.
pub open spec fn bracketed_text<T: PlainText>(
    c: Complex<T>,
    is_leading_term: bool,
    is_last_term: bool,
    format: PolynomialFormat,
) -> Seq<char> {
    (if !is_leading_term {
        " + "@
    } else {
        Seq::empty()
    }) + (if !is_last_term {
        "("@ + complex_text(c) + ")"@ + multiplication_sign(format)
    } else {
        complex_text(c)
    })
}

/// Appends the text of a complex coefficient with both parts to `w`.
fn write_bracketed<T: PlainText>(
    c: &Complex<T>,
    w: &mut String,
    is_leading_term: bool,
    is_last_term: bool,
    format: &PolynomialFormat,
)
    requires
        c.well_formed(),
    ensures
        final(w)@ == old(w)@ + bracketed_text(*c, is_leading_term, is_last_term, *format),
{
    if !is_leading_term {
        w.append(" + ");
    }
    let ghost begun = w@;
    if !is_last_term {
        w.append("(");
        write_complex(c, w);
        w.append(")");
        write_multiplication_sign(w, format);
        assert(w@ =~= begun + ("("@ + complex_text(*c) + ")"@ + multiplication_sign(*format)));
    } else {
        write_complex(c, w);
    }
    assert(w@ =~= old(w)@ + bracketed_text(*c, is_leading_term, is_last_term, *format));
}

impl<T: PlainText + CoefficientFormat> CoefficientFormat for Complex<T> {
    /// A number without an imaginary part is written as its real part is; one
    /// without a real part as its imaginary part is, followed by `i`; any
    /// other with both parts, in brackets.
    open spec fn formatted(
        &self,
        is_leading_term: bool,
        is_last_term: bool,
        format: PolynomialFormat,
    ) -> Seq<char> {
        if self.im.value() == T::zero_value() {
            self.re.formatted(is_leading_term, is_last_term, format)
        } else if self.re.value() == T::zero_value() {
            self.im.formatted(is_leading_term, is_last_term, format) + "i"@
        } else {
            bracketed_text(*self, is_leading_term, is_last_term, format)
        }
    }

    fn format_coefficient(
        &self,
        w: &mut String,
        is_leading_term: bool,
        is_last_term: bool,
        format: &PolynomialFormat,
    ) {
        if self.im.is_zero() {
            self.re.format_coefficient(w, is_leading_term, is_last_term, format);
            return ;
        }
        if self.re.is_zero() {
            self.im.format_coefficient(w, is_leading_term, is_last_term, format);
            w.append("i");
            assert(w@ =~= old(w)@ + (self.im.formatted(is_leading_term, is_last_term, *format)
                + "i"@));
            return ;
        }
        write_bracketed(self, w, is_leading_term, is_last_term, format);
    }
}

/// The complex number with integer parts that a literal denotes, as
/// `num::Complex` reads it: `a + bi`, `ai + b`, `a` or `bi`, with `-` in the
/// place of `+` and `j` in the place of `i` as well. `None` for a text that
/// it refuses.
pub uninterp spec fn complex_integer_literal(text: Seq<char>) -> Option<(int, int)>;

/// The complex number with integer parts that a literal denotes.
///
/// Trusted: the body parses the text as a `num::Complex` of `num::BigInt`s,
/// with `str::parse`, whose result depends on the text alone, and prints
/// both parts in decimal notation.
#[verifier::external_body]
fn complex_integer_from_literal(text: &str) -> (r: Option<Complex<Integer>>)
    ensures
        match complex_integer_literal(text@) {
            Some(v) => r matches Some(c) && c.well_formed() && c.value() == v,
            None => r is None,
        },
{
    match text.parse::<num::Complex<BigInt>>() {
        Ok(z) => Some(
            Complex {
                re: Integer { digits: z.re.to_string() },
                im: Integer { digits: z.im.to_string() },
            },
        ),
        Err(_) => None,
    }
}

/// The complex number with rational parts that a literal denotes, as
/// `num::Complex` reads it: `a + bi`, `ai + b`, `a` or `bi`, with `-` in the
/// place of `+` and `j` in the place of `i` as well, where `a` and `b` are
/// literals of rational numbers. `None` for a text that it refuses.
pub uninterp spec fn complex_rational_literal(text: Seq<char>) -> Option<(real, real)>;

/// The complex number with rational parts that a literal denotes.
///
/// Trusted: the body parses the text as a `num::Complex` of
/// `num::BigRational`s, with `str::parse`, whose result depends on the text
/// alone. Both parts are ratios in lowest terms, with a denominator above
/// zero; their numerators and denominators are printed in decimal notation.
#[verifier::external_body]
fn complex_rational_from_literal(text: &str) -> (r: Option<Complex<Rational>>)
    ensures
        match complex_rational_literal(text@) {
            Some(v) => r matches Some(c) && c.well_formed() && c.value() == v,
            None => r is None,
        },
{
    let z = match text.parse::<num::Complex<BigRational>>() {
        Ok(z) => z,
        Err(_) => return None,
    };
    let re = Rational {
        numer: Integer { digits: z.re.numer().to_string() },
        denom: Integer { digits: z.re.denom().to_string() },
    };
    let im = Rational {
        numer: Integer { digits: z.im.numer().to_string() },
        denom: Integer { digits: z.im.denom().to_string() },
    };
    Some(Complex { re, im })
}

impl Literal for Complex<Integer> {
    open spec fn literal_value(text: Seq<char>) -> Option<(int, int)> {
        complex_integer_literal(text)
    }

    fn from_literal(text: &str) -> (r: Option<Complex<Integer>>) {
        complex_integer_from_literal(text)
    }
}

impl Literal for Complex<Rational> {
    open spec fn literal_value(text: Seq<char>) -> Option<(real, real)> {
        complex_rational_literal(text)
    }

    fn from_literal(text: &str) -> (r: Option<Complex<Rational>>) {
        complex_rational_from_literal(text)
    }
}

} // verus!
