//! Polynomials as text.

use super::model;
use super::Polynomial;
use crate::algebra::{Domain, Ring, Signed};
use crate::decimal::{digits_of, digits_text, integer_text};
use crate::integer::Integer;
use crate::rational::Rational;
use crate::text::{text_of, PlainText, Text};
use vstd::prelude::*;
use vstd::string::StringExecFns;

verus! {

/// Specifies the format used by the `Polynomial.format_with` method.
#[derive(Clone, Copy, Debug, PartialEq, Eq)]
pub enum PolynomialFormat {
    /// Standard format that uses caret `^` before the powers.
    Standard,
    /// Latex-compatible format that uses carets `^` before the powers and curly braces `{}`
    /// around them.
    Latex,
    /// Concise format that omits the carets `^` before the powers.
    Concise,
}

/// A domain whose values can stand as coefficients in the text of a
/// polynomial.
pub trait CoefficientFormat: Domain {
    /// The text of the coefficient in a term: its sign, with the spaces
    /// around it that its place in the polynomial asks for, and its magnitude
    /// as far as it is written.
    spec fn formatted(
        &self,
        is_leading_term: bool,
        is_last_term: bool,
        format: PolynomialFormat,
    ) -> Text;

    /// Appends the text of the coefficient to `w`.
    fn format_coefficient(
        &self,
        w: &mut String,
        is_leading_term: bool,
        is_last_term: bool,
        format: &PolynomialFormat,
    )
        requires
            self.well_formed(),
        ensures
            final(w)@ == old(w)@ + self.formatted(is_leading_term, is_last_term, *format),
    ;
}

/// The sign of a term: a minus sign before a negative leading term, nothing
/// before another leading term, and a sign between spaces before every other
/// term.
pub open spec fn sign_text(negative: bool, is_leading_term: bool) -> Seq<char> {
    if is_leading_term && negative {
        "- "@
    } else if !is_leading_term {
        if negative {
            " - "@
        } else {
            " + "@
        }
    } else {
        Seq::empty()
    }
}

/// The text of a coefficient that is written as a plain number: the sign of
/// the term, then the magnitude, which is left out where it is one and the
/// term is not the constant one.
pub open spec fn plain_formatted<T: PlainText>(
    c: T,
    is_leading_term: bool,
    is_last_term: bool,
) -> Seq<char> {
    sign_text(T::negative(c.value()), is_leading_term) + if crate::algebra::magnitude::<T>(
        c.value(),
    ) != T::one_value() || is_last_term {
        c.magnitude_text()
    } else {
        Seq::empty()
    }
}

/// Appends the sign of a term to `w`.
fn write_sign(w: &mut String, negative: bool, is_leading_term: bool)
    ensures
        final(w)@ == old(w)@ + sign_text(negative, is_leading_term),
{
    if is_leading_term && negative {
        w.append("- ");
    } else if !is_leading_term {
        if negative {
            w.append(" - ");
        } else {
            w.append(" + ");
        }
    } else {
        assert(w@ =~= old(w)@ + Seq::<char>::empty());
    }
}

/// Appends the text of a coefficient that is written as a plain number to
/// `w`.
pub fn format_plain<T: PlainText>(c: &T, w: &mut String, is_leading_term: bool, is_last_term: bool)
    requires
        c.well_formed(),
    ensures
        final(w)@ == old(w)@ + plain_formatted(*c, is_leading_term, is_last_term),
{
    write_sign(w, c.is_negative(), is_leading_term);
    if !c.abs().is_one() || is_last_term {
        let magnitude = c.magnitude_to_text();
        w.append(magnitude.as_str());
        assert(w@ =~= old(w)@ + plain_formatted(*c, is_leading_term, is_last_term));
    } else {
        assert(w@ =~= old(w)@ + plain_formatted(*c, is_leading_term, is_last_term));
    }
}

impl CoefficientFormat for Integer {
    open spec fn formatted(
        &self,
        is_leading_term: bool,
        is_last_term: bool,
        format: PolynomialFormat,
    ) -> Seq<char> {
        plain_formatted(*self, is_leading_term, is_last_term)
    }

    fn format_coefficient(
        &self,
        w: &mut String,
        is_leading_term: bool,
        is_last_term: bool,
        format: &PolynomialFormat,
    ) {
        format_plain(self, w, is_leading_term, is_last_term);
    }
}

/// The sign between a coefficient and the indeterminate.
pub open spec fn multiplication_sign(format: PolynomialFormat) -> Seq<char> {
    match format {
        PolynomialFormat::Latex => "\\cdot"@,
        _ => "*"@,
    }
}

/// Appends the sign between a coefficient and the indeterminate to `w`.
pub fn write_multiplication_sign(w: &mut String, format: &PolynomialFormat)
    ensures
        final(w)@ == old(w)@ + multiplication_sign(*format),
{
    match format {
        PolynomialFormat::Latex => w.append("\\cdot"),
        _ => w.append("*"),
    }
}

/// The magnitude of `n` in decimal notation.
pub open spec fn magnitude_digits(n: int) -> Seq<char> {
    if n < 0 {
        integer_text(-n)
    } else {
        integer_text(n)
    }
}

/// A fraction: numerator and denominator around a `/`, or in the braces of
/// `\frac`.
pub open spec fn fraction_text(numerator: int, denominator: int, format: PolynomialFormat) -> Seq<
    char,
> {
    match format {
        PolynomialFormat::Latex => "\\frac{"@ + magnitude_digits(numerator) + "}{"@
            + magnitude_digits(denominator) + "}"@,
        _ => magnitude_digits(numerator) + "/"@ + magnitude_digits(denominator),
    }
}

/// Appends a fraction to `w`.
fn write_fraction(w: &mut String, numerator: &Rational, format: &PolynomialFormat)
    requires
        numerator.well_formed(),
    ensures
        final(w)@ == old(w)@ + fraction_text(
            numerator.numerator(),
            numerator.denominator(),
            *format,
        ),
{
    let above = numerator.numerator_magnitude_text();
    let below = numerator.denominator_text();
    match format {
        PolynomialFormat::Latex => {
            w.append("\\frac{");
            w.append(above.as_str());
            w.append("}{");
            w.append(below.as_str());
            w.append("}");
            assert(w@ =~= old(w)@ + ("\\frac{"@ + above@ + "}{"@ + below@ + "}"@));
        },
        _ => {
            w.append(above.as_str());
            w.append("/");
            w.append(below.as_str());
            assert(w@ =~= old(w)@ + (above@ + "/"@ + below@));
        },
    }
}

impl CoefficientFormat for Rational {
    /// The sign of the term, then the fraction, which is left out where the
    /// number is one and the term is not the constant one, then the
    /// multiplication sign in every term but the constant one.
    open spec fn formatted(
        &self,
        is_leading_term: bool,
        is_last_term: bool,
        format: PolynomialFormat,
    ) -> Seq<char> {
        sign_text(self.numerator() < 0, is_leading_term) + (if self.numerator()
            != self.denominator() || is_last_term {
            fraction_text(self.numerator(), self.denominator(), format)
        } else {
            Seq::empty()
        }) + (if !is_last_term {
            multiplication_sign(format)
        } else {
            Seq::empty()
        })
    }

    fn format_coefficient(
        &self,
        w: &mut String,
        is_leading_term: bool,
        is_last_term: bool,
        format: &PolynomialFormat,
    ) {
        // Write the sign of the term
        write_sign(w, self.is_negative(), is_leading_term);
        let ghost signed = w@;
        proof {
            crate::rational::lemma_ratio_sign(self.numerator(), self.denominator());
        }

        // Write the abs of the coefficient
        if !self.is_one() || is_last_term {
            write_fraction(w, self, format);
        } else {
            assert(w@ =~= signed + Seq::<char>::empty());
        }
        let ghost valued = w@;

        // Write the multiplication sign
        if !is_last_term {
            write_multiplication_sign(w, format);
        } else {
            assert(w@ =~= valued + Seq::<char>::empty());
        }
        assert(w@ =~= old(w)@ + self.formatted(is_leading_term, is_last_term, *format));
    }
}

/// The text of the indeterminate and its power: nothing in the constant
/// term, the bare `x` in the linear one, and beyond that the power after a
/// caret, in braces after a caret, or directly after the `x`.
pub open spec fn indeterminate_text(power: nat, format: PolynomialFormat) -> Seq<char> {
    if power == 0 {
        Seq::empty()
    } else if power == 1 {
        "x"@
    } else {
        match format {
            PolynomialFormat::Latex => "x^{"@ + digits_text(power) + "}"@,
            PolynomialFormat::Concise => "x"@ + digits_text(power),
            PolynomialFormat::Standard => "x^"@ + digits_text(power),
        }
    }
}

/// Appends the text of the indeterminate and its power to `w`.
fn write_indeterminate(w: &mut String, power: u32, format: &PolynomialFormat)
    ensures
        final(w)@ == old(w)@ + indeterminate_text(power as nat, *format),
{
    // Write the indeterminate x and the power if it's not 0
    if power == 0 {
        assert(w@ =~= old(w)@ + Seq::<char>::empty());
        return ;
    }
    if power == 1 {
        w.append("x");
        return ;
    }
    let digits = digits_of(power);
    let exponent = text_of(&digits, 0, digits.len());
    assert(exponent@ =~= digits_text(power as nat));
    match format {
        PolynomialFormat::Latex => {
            w.append("x^{");
            w.append(exponent.as_str());
            w.append("}");
            assert(w@ =~= old(w)@ + ("x^{"@ + digits_text(power as nat) + "}"@));
        },
        PolynomialFormat::Concise => {
            w.append("x");
            w.append(exponent.as_str());
            assert(w@ =~= old(w)@ + ("x"@ + digits_text(power as nat)));
        },
        PolynomialFormat::Standard => {
            w.append("x^");
            w.append(exponent.as_str());
            assert(w@ =~= old(w)@ + ("x^"@ + digits_text(power as nat)));
        },
    }
}

impl<T: Ring + CoefficientFormat> Polynomial<T> {
    /// The text of the term of the exponent `power`, which is stored: its
    /// coefficient, formatted as the leading term where no term has a higher
    /// exponent and as the last one where the exponent is zero, and the
    /// indeterminate with its power.
    pub open spec fn term_text(&self, power: u32, format: PolynomialFormat) -> Seq<char> {
        self.terms()[power].formatted(
            model::degree_below::<T>(self@, power as nat + 1),
            power == 0,
            format,
        ) + indeterminate_text(power as nat, format)
    }

    /// The texts of the terms with an exponent of `lo` or above, the highest
    /// exponent first.
    pub open spec fn terms_text(&self, lo: nat, format: PolynomialFormat) -> Seq<char>
        decreases model::exponent_bound() - lo,
    {
        if lo >= model::exponent_bound() {
            Seq::empty()
        } else {
            self.terms_text(lo + 1, format) + if self.terms().contains_key(lo as u32) {
                self.term_text(lo as u32, format)
            } else {
                Seq::empty()
            }
        }
    }

    /// The polynomial as text: `0` for the zero polynomial, else its terms
    /// from the highest exponent down.
    pub open spec fn rendered(&self, format: PolynomialFormat) -> Seq<char> {
        if self@ == Map::<nat, T::Value>::empty() {
            "0"@
        } else {
            self.terms_text(0, format)
        }
    }

    /// Where no term has an exponent from `a` up to `b`, the terms from `a`
    /// on are those from `b` on.
    proof fn lemma_terms_text_gap(&self, a: nat, b: nat, format: PolynomialFormat)
        requires
            a <= b,
            forall|k: nat| a <= k < b ==> !self@.contains_key(k),
        ensures
            self.terms_text(a, format) == self.terms_text(b, format),
        decreases b - a,
    {
        if a < b {
            self.lemma_terms_text_gap(a + 1, b, format);
            if a < model::exponent_bound() {
                assert(!self@.contains_key(a));
                assert(self.terms_text(a, format) =~= self.terms_text(a + 1, format));
            }
        }
    }

    /// Appends the polynomial as text to `w`.
    fn write_to_fmt(&self, w: &mut String, string_format: PolynomialFormat)
        requires
            self.well_formed(),
        ensures
            final(w)@ == old(w)@ + self.rendered(string_format),
    {
        // Handle the zero polynomial case
        let degree = match self.degree() {
            None => {
                w.append("0");
                return ;
            },
            Some(degree) => degree,
        };
        let exponents = self.exponents();
        let mut i: usize = exponents.len();
        proof {
            assert(self@.contains_key(degree as nat));
            self.lemma_terms_text_gap(
                degree as nat + 1,
                model::exponent_bound(),
                string_format,
            );
            assert(w@ =~= old(w)@ + self.terms_text(degree as nat + 1, string_format));
        }
        let ghost mut done: nat = degree as nat + 1;
        while i > 0
            invariant
                i <= exponents.len(),
                self.well_formed(),
                model::is_degree::<T>(self@, degree as nat),
                forall|a: int, b: int| 0 <= a < b < exponents.len() ==> exponents[a] < exponents[b],
                forall|k: u32| self.terms().contains_key(k) <==> exponents@.contains(k),
                done <= model::exponent_bound(),
                i < exponents.len() ==> done == exponents[i as int],
                i == exponents.len() ==> done == degree + 1,
                w@ == old(w)@ + self.terms_text(done, string_format),
            decreases i,
        {
            i -= 1;
            let power = exponents[i];
            proof {
                assert(exponents@.contains(power));
                assert(self@.contains_key(power as nat));
                if i + 1 < exponents.len() {
                    assert(exponents[i as int] < exponents[i + 1]);
                }
                assert forall|k: nat| power < k < done implies !self@.contains_key(k) by {
                    if self@.contains_key(k) {
                        self.lemma_between_exponents(exponents@, i as int, k);
                    }
                }
                self.lemma_terms_text_gap(power as nat + 1, done, string_format);
            }
            let ghost before = w@;
            proof {
                if power == degree {
                    assert(model::degree_below::<T>(self@, power as nat + 1));
                } else {
                    assert(self@.contains_key(degree as nat) && degree >= power + 1);
                }
            }
            let coefficient = self.coefficients.get(&power).unwrap();
            coefficient.format_coefficient(w, power == degree, power == 0, &string_format);
            write_indeterminate(w, power, &string_format);
            proof {
                assert(w@ =~= before + self.term_text(power, string_format));
                assert(w@ =~= old(w)@ + self.terms_text(power as nat, string_format));
                done = power as nat;
            }
        }
        proof {
            assert forall|k: nat| 0 <= k < done implies !self@.contains_key(k) by {
                if self@.contains_key(k) {
                    self.lemma_between_exponents(exponents@, -1, k);
                }
            }
            self.lemma_terms_text_gap(0, done, string_format);
        }
    }

    /// Returns the polynomial as a [`String`] in the specified [format](PolynomialFormat).
    pub fn format_with(&self, format: PolynomialFormat) -> (r: String)
        requires
            self.well_formed(),
        ensures
            r@ == self.rendered(format),
    {
        let mut buffer = String::new();
        self.write_to_fmt(&mut buffer, format);
        assert(buffer@ =~= self.rendered(format));
        buffer
    }

    /// Returns the polynomial as a [`String`] in the standard format.
    pub fn to_string(&self) -> (r: String)
        requires
            self.well_formed(),
        ensures
            r@ == self.rendered(PolynomialFormat::Standard),
    {
        self.format_with(PolynomialFormat::Standard)
    }
}

} // verus!
