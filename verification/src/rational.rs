//! Rational numbers of any size.

use crate::algebra::{natural, Domain, Field, FormallyReal, Ring, Signed};
use crate::decimal::{integer_literal, integer_text};
use crate::integer::Integer;
use crate::text::{Literal, PlainText};
use num::BigRational;
use vstd::prelude::*;
use vstd::string::StringExecFns;

verus! {

/// A rational number of any size: a numerator over a denominator above zero.
#[derive(Clone, Debug, PartialEq, Eq)]
pub struct Rational {
    pub(crate) numer: Integer,
    pub(crate) denom: Integer,
}

/// The number `n / d`.
pub open spec fn ratio(n: int, d: int) -> real {
    n as real / d as real
}

/// `a` and `b` have no common divisor above 1.
pub open spec fn coprime(a: int, b: int) -> bool {
    forall|k: int| k > 1 ==> !(#[trigger] (a % k) == 0 && b % k == 0)
}

/// Every integer is coprime with 1.
pub proof fn lemma_coprime_with_one(a: int)
    ensures
        coprime(a, 1),
{
    assert forall|k: int| k > 1 implies !(#[trigger] (a % k) == 0 && 1int % k == 0) by {
        vstd::arithmetic::div_mod::lemma_small_mod(1, k as nat);
    }
}

/// What is coprime with `b` is so with either sign.
pub proof fn lemma_coprime_negation(a: int, b: int)
    requires
        coprime(a, b),
    ensures
        coprime(-a, b),
{
    assert forall|k: int| k > 1 implies !(#[trigger] ((-a) % k) == 0 && b % k == 0) by {
        if (-a) % k == 0 {
            vstd::arithmetic::div_mod::lemma_fundamental_div_mod(-a, k);
            let q = (-a) / k;
            assert(a == (-q) * k) by (nonlinear_arith)
                requires
                    -a == k * q + 0,
            ;
            vstd::arithmetic::div_mod::lemma_mod_multiples_basic(-q, k);
            assert(a % k == 0);
        }
    }
}

/// The index of the first `/` of `s`; the length of `s` where it has none.
pub open spec fn slash_index(s: Seq<char>) -> int
    decreases s.len(),
{
    if s.len() == 0 || s[0] == '/' {
        0
    } else {
        1 + slash_index(s.drop_first())
    }
}

/// The rational number that a literal denotes: an integer literal, or two
/// of them around the first `/`, the second of which does not denote zero.
/// `None` for any other text.
pub open spec fn rational_literal(s: Seq<char>) -> Option<real> {
    let i = slash_index(s);
    if i < s.len() {
        match (integer_literal(s.subrange(0, i)), integer_literal(
            s.subrange(i + 1, s.len() as int),
        )) {
            (Some(n), Some(d)) => if d != 0 {
                Some(ratio(n, d))
            } else {
                None
            },
            _ => None,
        }
    } else {
        match integer_literal(s) {
            Some(n) => Some(ratio(n, 1)),
            None => None,
        }
    }
}

impl Rational {
    /// The numerator that the number is held with.
    pub closed spec fn numerator(&self) -> int {
        self.numer.value()
    }

    /// The denominator that the number is held with.
    pub closed spec fn denominator(&self) -> int {
        self.denom.value()
    }

    /// Numerator and denominator are held in decimal notation.
    pub closed spec fn notated(&self) -> bool {
        self.numer.well_formed() && self.denom.well_formed()
    }

    /// The number `numer / denom`, for a `denom` other than zero.
    pub fn new(numer: i64, denom: i64) -> (r: Rational)
        requires
            denom != 0,
        ensures
            r.well_formed(),
            r.value() == ratio(numer as int, denom as int),
    {
        proof {
            lemma_ratio_over_one(numer as int);
            lemma_ratio_over_one(denom as int);
        }
        Rational::from_integer(numer).divided_by(&Rational::from_integer(denom))
    }

    /// The magnitude of the numerator in decimal notation.
    pub fn numerator_magnitude_text(&self) -> (r: String)
        requires
            self.well_formed(),
        ensures
            r@ == if self.numerator() < 0 {
                integer_text(-self.numerator())
            } else {
                integer_text(self.numerator())
            },
    {
        self.numer.magnitude_to_text()
    }

    /// The denominator in decimal notation.
    pub fn denominator_text(&self) -> (r: String)
        requires
            self.well_formed(),
        ensures
            r@ == integer_text(self.denominator()),
    {
        self.denom.magnitude_to_text()
    }

    /// The integer `n` as a rational number.
    pub fn from_integer(n: i64) -> (r: Rational)
        ensures
            r.well_formed(),
            r.value() == ratio(n as int, 1),
    {
        proof {
            lemma_coprime_with_one(n as int);
        }
        Rational { numer: Integer::new(n), denom: Integer::one() }
    }
}

/// The sum of two rational numbers.
///
/// Trusted: the body parses numerators and denominators as `num::BigInt`s
/// and adds the two `BigRational`s with `+`. That gives their sum in lowest
/// terms, with a denominator above zero. Its numerator and denominator are
/// printed in decimal notation.
#[verifier::external_body]
fn ratio_sum(a: &Rational, b: &Rational) -> (r: Rational)
    requires
        a.well_formed(),
        b.well_formed(),
    ensures
        r.well_formed(),
        r.value() == a.value() + b.value(),
{
    let x = BigRational::new_raw(a.numer.digits.parse().unwrap(), a.denom.digits.parse().unwrap());
    let y = BigRational::new_raw(b.numer.digits.parse().unwrap(), b.denom.digits.parse().unwrap());
    let z = x + y;
    Rational {
        numer: Integer { digits: z.numer().to_string() },
        denom: Integer { digits: z.denom().to_string() },
    }
}

/// The product of two rational numbers.
///
/// Trusted: the body parses numerators and denominators as `num::BigInt`s
/// and multiplies the two `BigRational`s with `*`. That gives their product
/// in lowest terms, with a denominator above zero. Its numerator and
/// denominator are printed in decimal notation.
#[verifier::external_body]
fn ratio_product(a: &Rational, b: &Rational) -> (r: Rational)
    requires
        a.well_formed(),
        b.well_formed(),
    ensures
        r.well_formed(),
        r.value() == a.value() * b.value(),
{
    let x = BigRational::new_raw(a.numer.digits.parse().unwrap(), a.denom.digits.parse().unwrap());
    let y = BigRational::new_raw(b.numer.digits.parse().unwrap(), b.denom.digits.parse().unwrap());
    let z = x * y;
    Rational {
        numer: Integer { digits: z.numer().to_string() },
        denom: Integer { digits: z.denom().to_string() },
    }
}

/// The quotient of two rational numbers, the second of which is not zero.
///
/// Trusted: the body parses numerators and denominators as `num::BigInt`s
/// and divides the two `BigRational`s with `/`. That gives their quotient in
/// lowest terms, with a denominator above zero, and panics on a divisor of
/// zero. Its numerator and denominator are printed in decimal notation.
#[verifier::external_body]
fn ratio_quotient(a: &Rational, b: &Rational) -> (r: Rational)
    requires
        a.well_formed(),
        b.well_formed(),
        b.value() != 0real,
    ensures
        r.well_formed(),
        r.value() == a.value() / b.value(),
{
    let x = BigRational::new_raw(a.numer.digits.parse().unwrap(), a.denom.digits.parse().unwrap());
    let y = BigRational::new_raw(b.numer.digits.parse().unwrap(), b.denom.digits.parse().unwrap());
    let z = x / y;
    Rational {
        numer: Integer { digits: z.numer().to_string() },
        denom: Integer { digits: z.denom().to_string() },
    }
}

/// The rational number that a literal denotes.
///
/// Trusted: the body parses the text as a `num::BigRational`, with
/// `str::parse`. That splits the text at its first `/`, reads what stands
/// before it as the numerator and what stands after it as the denominator,
/// each as a `BigInt` literal, takes 1 for the denominator where there is no
/// `/`, and refuses a denominator of zero and every text of another form. It
/// gives the ratio in lowest terms, with a denominator above zero, which is
/// printed in decimal notation.
#[verifier::external_body]
fn ratio_from_literal(text: &str) -> (r: Option<Rational>)
    ensures
        match rational_literal(text@) {
            Some(v) => r matches Some(c) && c.well_formed() && c.value() == v,
            None => r is None,
        },
{
    match text.parse::<BigRational>() {
        Ok(z) => Some(
            Rational {
                numer: Integer { digits: z.numer().to_string() },
                denom: Integer { digits: z.denom().to_string() },
            },
        ),
        Err(_) => None,
    }
}

impl Domain for Rational {
    type Value = real;

    open spec fn value(&self) -> real {
        ratio(self.numerator(), self.denominator())
    }

    /// The number is held in lowest terms, with a denominator above zero.
    open spec fn well_formed(&self) -> bool {
        self.notated() && self.denominator() > 0 && coprime(self.numerator(), self.denominator())
    }

    open spec fn zero_value() -> real {
        0real
    }

    open spec fn one_value() -> real {
        1real
    }

    open spec fn sum(a: real, b: real) -> real {
        a + b
    }

    open spec fn negation(a: real) -> real {
        -a
    }

    open spec fn product(a: real, b: real) -> real {
        a * b
    }

    proof fn law_sum_commutes(a: real, b: real) {
    }

    proof fn law_sum_associates(a: real, b: real, c: real) {
    }

    proof fn law_sum_zero(a: real) {
    }

    proof fn law_sum_negation(a: real) {
    }

    proof fn law_product_commutes(a: real, b: real) {
        assert(a * b == b * a) by (nonlinear_arith);
    }

    proof fn law_product_associates(a: real, b: real, c: real) {
        assert((a * b) * c == a * (b * c)) by (nonlinear_arith);
    }

    proof fn law_product_one(a: real) {
        assert(a * 1real == a) by (nonlinear_arith);
    }

    proof fn law_product_distributes(a: real, b: real, c: real) {
        assert(a * (b + c) == a * b + a * c) by (nonlinear_arith);
    }
}

/// A ratio with a denominator above zero is zero, or negative, just when its
/// numerator is; it is one just when numerator and denominator are the same.
pub proof fn lemma_ratio_sign(n: int, d: int)
    requires
        d > 0,
    ensures
        (ratio(n, d) == 0real) == (n == 0),
        (ratio(n, d) < 0real) == (n < 0),
        (ratio(n, d) == 1real) == (n == d),
        ratio(-n, d) == -ratio(n, d),
{
    let x = n as real;
    let y = d as real;
    assert(y > 0real);
    assert((x / y == 0real) == (x == 0real)) by (nonlinear_arith)
        requires
            y > 0real,
    ;
    assert((x / y < 0real) == (x < 0real)) by (nonlinear_arith)
        requires
            y > 0real,
    ;
    assert((x / y == 1real) == (x == y)) by (nonlinear_arith)
        requires
            y > 0real,
    ;
    assert((-x) / y == -(x / y)) by (nonlinear_arith)
        requires
            y > 0real,
    ;
    assert((-n) as real == -x);
}

/// The ratio of an integer and 1 is the integer.
pub proof fn lemma_ratio_over_one(n: int)
    ensures
        ratio(n, 1) == n as real,
{
    let x = n as real;
    assert(x / 1real == x) by (nonlinear_arith);
}

/// The natural number `n` is the ratio of `n` and 1.
pub proof fn lemma_natural_ratio(n: nat)
    ensures
        natural::<Rational>(n) == ratio(n as int, 1),
    decreases n,
{
    lemma_ratio_over_one(n as int);
    if n > 0 {
        lemma_natural_ratio((n - 1) as nat);
        lemma_ratio_over_one(n - 1);
    }
}

impl Ring for Rational {
    fn zero() -> (r: Rational) {
        proof {
            lemma_ratio_over_one(0);
            lemma_coprime_with_one(0);
        }
        Rational { numer: Integer::zero(), denom: Integer::one() }
    }

    fn one() -> (r: Rational) {
        proof {
            lemma_ratio_over_one(1);
            lemma_coprime_with_one(1);
        }
        Rational { numer: Integer::one(), denom: Integer::one() }
    }

    fn is_zero(&self) -> (b: bool) {
        proof {
            lemma_ratio_sign(self.numerator(), self.denominator());
        }
        self.numer.is_zero()
    }

    fn is_one(&self) -> (b: bool) {
        proof {
            lemma_ratio_sign(self.numerator(), self.denominator());
        }
        self.numer.minus(&self.denom).is_zero()
    }

    fn duplicate(&self) -> (r: Rational) {
        Rational { numer: self.numer.duplicate(), denom: self.denom.duplicate() }
    }

    fn plus(&self, rhs: &Rational) -> (r: Rational) {
        ratio_sum(self, rhs)
    }

    fn minus(&self, rhs: &Rational) -> (r: Rational) {
        ratio_sum(self, &rhs.negated())
    }

    fn times(&self, rhs: &Rational) -> (r: Rational) {
        ratio_product(self, rhs)
    }

    fn negated(&self) -> (r: Rational) {
        proof {
            lemma_ratio_sign(self.numerator(), self.denominator());
            lemma_coprime_negation(self.numerator(), self.denominator());
        }
        Rational { numer: self.numer.negated(), denom: self.denom.duplicate() }
    }

    fn from_u32(n: u32) -> (r: Rational) {
        proof {
            lemma_natural_ratio(n as nat);
            crate::integer::lemma_natural_value(n as nat);
            lemma_coprime_with_one(n as int);
        }
        Rational { numer: Integer::from_u32(n), denom: Integer::one() }
    }
}

impl Field for Rational {
    open spec fn quotient(a: real, b: real) -> real {
        a / b
    }

    proof fn law_quotient(a: real, b: real) {
        assert((a / b) * b == a) by (nonlinear_arith)
            requires
                b != 0real,
        ;
    }

    fn divided_by(&self, rhs: &Rational) -> (r: Rational) {
        ratio_quotient(self, rhs)
    }
}

impl FormallyReal for Rational {
    proof fn law_squares(a: real, b: real) {
        assert(a * a + b * b == 0real ==> a == 0real && b == 0real) by (nonlinear_arith);
    }
}

impl Signed for Rational {
    open spec fn negative(a: real) -> bool {
        a < 0real
    }

    fn is_negative(&self) -> (b: bool) {
        proof {
            lemma_ratio_sign(self.numerator(), self.denominator());
        }
        self.numer.is_negative()
    }

    fn abs(&self) -> (r: Rational) {
        if self.is_negative() {
            self.negated()
        } else {
            self.duplicate()
        }
    }
}

impl PlainText for Rational {
    /// The magnitude of the numerator, and after a `/` the denominator,
    /// where that is not 1.
    open spec fn magnitude_text(&self) -> Seq<char> {
        let numerator = if self.numerator() < 0 {
            integer_text(-self.numerator())
        } else {
            integer_text(self.numerator())
        };
        if self.denominator() == 1 {
            numerator
        } else {
            numerator + seq!['/'] + integer_text(self.denominator())
        }
    }

    fn magnitude_to_text(&self) -> (r: String) {
        let numerator = self.numer.magnitude_to_text();
        if self.denom.is_one() {
            numerator
        } else {
            proof {
                reveal_strlit("/");
                assert("/"@ =~= seq!['/']);
            }
            let denominator = self.denom.magnitude_to_text();
            numerator.concat("/").concat(denominator.as_str())
        }
    }
}

impl Literal for Rational {
    open spec fn literal_value(text: Seq<char>) -> Option<real> {
        rational_literal(text)
    }

    fn from_literal(text: &str) -> (r: Option<Rational>) {
        ratio_from_literal(text)
    }
}

} // verus!
