//! Integers of any size.

use crate::algebra::{Domain, Ring, Signed};
use crate::decimal::{
    digits_of, integer_literal, integer_text, integer_value, lemma_digits_text,
    lemma_integer_text,
};
use crate::text::{text_of, Literal, PlainText};
use num::BigInt;
use vstd::prelude::*;
use vstd::string::StringExecFns;

verus! {

/// An integer of any size.
///
/// It is held in decimal notation, the form in which the arithmetic of the
/// big integers behind it is stated.
#[derive(Clone, Debug, PartialEq, Eq)]
pub struct Integer {
    pub(crate) digits: String,
}

impl Integer {
    /// The decimal notation that the integer is held in.
    pub closed spec fn notation(&self) -> Seq<char> {
        self.digits@
    }

    /// The integer `n`.
    pub fn new(n: i64) -> (r: Integer)
        ensures
            r.well_formed(),
            r.value() == n,
    {
        if n < 0 {
            let magnitude = (-(n + 1)) as u64 + 1;
            Integer::from_u64(magnitude).negated()
        } else {
            Integer::from_u64(n as u64)
        }
    }

    /// The natural number `n`.
    fn from_u64(n: u64) -> (r: Integer)
        ensures
            r.well_formed(),
            r.value() == n,
    {
        let high = (n / 0x1_0000_0000) as u32;
        let low = (n % 0x1_0000_0000) as u32;
        let base = Integer::from_u32(u32::MAX).plus(&Integer::one());
        let r = Integer::from_u32(high).times(&base).plus(&Integer::from_u32(low));
        proof {
            lemma_natural_value(u32::MAX as nat);
            lemma_natural_value(high as nat);
            lemma_natural_value(low as nat);
            assert(r.value() == high * 0x1_0000_0000 + low);
        }
        r
    }
}

/// The natural number `n` is the sum of `n` ones.
pub proof fn lemma_natural_value(n: nat)
    ensures
        crate::algebra::natural::<Integer>(n) == n,
    decreases n,
{
    if n > 0 {
        lemma_natural_value((n - 1) as nat);
    }
}

/// The sum of two integers.
///
/// Trusted: the body parses both notations as `num::BigInt`s, which reads a
/// decimal notation as the integer it denotes, and adds them with `+`. The
/// result is printed, which `BigInt` does in decimal notation without
/// leading zeros, with a minus sign before a negative number.
#[verifier::external_body]
fn integer_sum(a: &Integer, b: &Integer) -> (r: Integer)
    requires
        a.well_formed(),
        b.well_formed(),
    ensures
        r.well_formed(),
        r.value() == a.value() + b.value(),
{
    let x = a.digits.parse::<BigInt>().unwrap();
    let y = b.digits.parse::<BigInt>().unwrap();
    Integer { digits: (x + y).to_string() }
}

/// The product of two integers.
///
/// Trusted: the body parses both notations as `num::BigInt`s and multiplies
/// them with `*`. The result is printed in decimal notation.
#[verifier::external_body]
fn integer_product(a: &Integer, b: &Integer) -> (r: Integer)
    requires
        a.well_formed(),
        b.well_formed(),
    ensures
        r.well_formed(),
        r.value() == a.value() * b.value(),
{
    let x = a.digits.parse::<BigInt>().unwrap();
    let y = b.digits.parse::<BigInt>().unwrap();
    Integer { digits: (x * y).to_string() }
}

/// The integer that a literal denotes.
///
/// Trusted: the body parses the text as a `num::BigInt`, with `str::parse`.
/// That accepts one sign or none, then a digit, then digits and underscores,
/// and reads the digits as a decimal number; it refuses every other text.
/// The result is printed in decimal notation.
#[verifier::external_body]
fn integer_from_literal(text: &str) -> (r: Option<Integer>)
    ensures
        match integer_literal(text@) {
            Some(n) => r matches Some(c) && c.well_formed() && c.value() == n,
            None => r is None,
        },
{
    match text.parse::<BigInt>() {
        Ok(x) => Some(Integer { digits: x.to_string() }),
        Err(_) => None,
    }
}

impl Domain for Integer {
    type Value = int;

    open spec fn value(&self) -> int {
        integer_value(self.notation())
    }

    /// The notation is the decimal notation of the value: it has no leading
    /// zeros, and zero has no sign.
    open spec fn well_formed(&self) -> bool {
        self.notation() == integer_text(integer_value(self.notation()))
    }

    open spec fn zero_value() -> int {
        0
    }

    open spec fn one_value() -> int {
        1
    }

    open spec fn sum(a: int, b: int) -> int {
        a + b
    }

    open spec fn negation(a: int) -> int {
        -a
    }

    open spec fn product(a: int, b: int) -> int {
        a * b
    }

    proof fn law_sum_commutes(a: int, b: int) {
    }

    proof fn law_sum_associates(a: int, b: int, c: int) {
    }

    proof fn law_sum_zero(a: int) {
    }

    proof fn law_sum_negation(a: int) {
    }

    proof fn law_product_commutes(a: int, b: int) {
        assert(a * b == b * a) by (nonlinear_arith);
    }

    proof fn law_product_associates(a: int, b: int, c: int) {
        assert((a * b) * c == a * (b * c)) by (nonlinear_arith);
    }

    proof fn law_product_one(a: int) {
    }

    proof fn law_product_distributes(a: int, b: int, c: int) {
        assert(a * (b + c) == a * b + a * c) by (nonlinear_arith);
    }
}

impl Ring for Integer {
    fn zero() -> (r: Integer) {
        let r = Integer { digits: "0".to_owned() };
        proof {
            reveal_strlit("0");
            lemma_integer_text(0);
            assert(r.notation() =~= integer_text(0));
        }
        r
    }

    fn one() -> (r: Integer) {
        let r = Integer { digits: "1".to_owned() };
        proof {
            reveal_strlit("1");
            lemma_integer_text(1);
            assert(r.notation() =~= integer_text(1));
        }
        r
    }

    fn is_zero(&self) -> (b: bool) {
        proof {
            lemma_integer_text(0);
            assert(seq!['0'] =~= integer_text(0));
            if self.notation().len() == 1 && self.notation()[0] == '0' {
                assert(self.notation() =~= seq!['0']);
            }
        }
        self.digits.as_str().unicode_len() == 1 && self.digits.as_str().get_char(0) == '0'
    }

    fn is_one(&self) -> (b: bool) {
        proof {
            lemma_integer_text(1);
            assert(seq!['1'] =~= integer_text(1));
            if self.notation().len() == 1 && self.notation()[0] == '1' {
                assert(self.notation() =~= seq!['1']);
            }
        }
        self.digits.as_str().unicode_len() == 1 && self.digits.as_str().get_char(0) == '1'
    }

    fn duplicate(&self) -> (r: Integer) {
        Integer { digits: self.digits.clone() }
    }

    fn plus(&self, rhs: &Integer) -> (r: Integer) {
        integer_sum(self, rhs)
    }

    fn minus(&self, rhs: &Integer) -> (r: Integer) {
        integer_sum(self, &rhs.negated())
    }

    fn times(&self, rhs: &Integer) -> (r: Integer) {
        integer_product(self, rhs)
    }

    fn negated(&self) -> (r: Integer) {
        proof {
            lemma_integer_text(self.value());
            lemma_integer_text(-self.value());
            assert(Integer::negative(self.value()) == (self.value() < 0));
        }
        if self.is_zero() {
            self.duplicate()
        } else if self.is_negative() {
            let text = self.digits.as_str();
            let n = text.unicode_len();
            let r = Integer { digits: text.substring_char(1, n).to_owned() };
            proof {
                assert(r.notation() =~= self.notation().drop_first());
                assert(integer_text(self.value()).drop_first() =~= integer_text(-self.value()));
            }
            r
        } else {
            let r = Integer { digits: "-".to_owned().concat(self.digits.as_str()) };
            proof {
                reveal_strlit("-");
                assert(r.notation() =~= seq!['-'] + self.notation());
            }
            r
        }
    }

    fn from_u32(n: u32) -> (r: Integer) {
        let digits = digits_of(n);
        let r = Integer { digits: text_of(&digits, 0, digits.len()) };
        proof {
            assert(digits@.subrange(0, digits.len() as int) =~= digits@);
            lemma_digits_text(n as nat);
            lemma_integer_text(n as int);
            lemma_natural_value(n as nat);
        }
        r
    }
}

impl Signed for Integer {
    open spec fn negative(a: int) -> bool {
        a < 0
    }

    fn is_negative(&self) -> (b: bool) {
        proof {
            lemma_integer_text(self.value());
            assert(Self::negative(self.value()) == (self.value() < 0));
        }
        self.digits.as_str().get_char(0) == '-'
    }

    fn abs(&self) -> (r: Integer) {
        if self.is_negative() {
            self.negated()
        } else {
            self.duplicate()
        }
    }
}

impl PlainText for Integer {
    open spec fn magnitude_text(&self) -> Seq<char> {
        if self.value() < 0 {
            integer_text(-self.value())
        } else {
            integer_text(self.value())
        }
    }

    fn magnitude_to_text(&self) -> (r: String) {
        self.abs().digits
    }
}

impl Literal for Integer {
    open spec fn literal_value(text: Seq<char>) -> Option<int> {
        integer_literal(text)
    }

    fn from_literal(text: &str) -> (r: Option<Integer>) {
        integer_from_literal(text)
    }
}

} // verus!
