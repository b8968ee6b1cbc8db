use polynomials::algebra::{Domain, Field, Ring, Signed};
use polynomials::polynomial::display::CoefficientFormat;
use polynomials::text::{Literal, PlainText, Text};
use polynomials::{Complex, Polynomial, PolynomialFormat};

/// Floating-point coefficients.
#[derive(Clone, Copy, Debug, PartialEq)]
struct Real(f64);

impl Domain for Real {
    type Value = f64;

    fn value(&self) -> f64 {
        self.0
    }

    fn well_formed(&self) -> bool {
        true
    }

    fn zero_value() -> f64 {
        0.0
    }

    fn one_value() -> f64 {
        1.0
    }

    fn sum(a: f64, b: f64) -> f64 {
        a + b
    }

    fn negation(a: f64) -> f64 {
        -a
    }

    fn product(a: f64, b: f64) -> f64 {
        a * b
    }

    fn law_sum_commutes(_: f64, _: f64) {}

    fn law_sum_associates(_: f64, _: f64, _: f64) {}

    fn law_sum_zero(_: f64) {}

    fn law_sum_negation(_: f64) {}

    fn law_product_commutes(_: f64, _: f64) {}

    fn law_product_associates(_: f64, _: f64, _: f64) {}

    fn law_product_one(_: f64) {}

    fn law_product_distributes(_: f64, _: f64, _: f64) {}
}

impl Ring for Real {
    fn zero() -> Real {
        Real(0.0)
    }

    fn one() -> Real {
        Real(1.0)
    }

    fn is_zero(&self) -> bool {
        self.0 == 0.0
    }

    fn is_one(&self) -> bool {
        self.0 == 1.0
    }

    fn duplicate(&self) -> Real {
        *self
    }

    fn plus(&self, rhs: &Real) -> Real {
        Real(self.0 + rhs.0)
    }

    fn minus(&self, rhs: &Real) -> Real {
        Real(self.0 - rhs.0)
    }

    fn times(&self, rhs: &Real) -> Real {
        Real(self.0 * rhs.0)
    }

    fn negated(&self) -> Real {
        Real(-self.0)
    }

    fn from_u32(n: u32) -> Real {
        Real(n.into())
    }
}

impl Field for Real {
    fn quotient(a: f64, b: f64) -> f64 {
        a / b
    }

    fn law_quotient(_: f64, _: f64) {}

    fn divided_by(&self, rhs: &Real) -> Real {
        Real(self.0 / rhs.0)
    }
}

impl Signed for Real {
    fn negative(a: f64) -> bool {
        a < 0.0
    }

    fn is_negative(&self) -> bool {
        self.0 < 0.0
    }

    fn abs(&self) -> Real {
        Real(self.0.abs())
    }
}

impl PlainText for Real {
    fn magnitude_text(&self) -> Text {
        unreachable!()
    }

    fn magnitude_to_text(&self) -> String {
        format!("{}", self.0.abs())
    }
}

impl Literal for Real {
    fn literal_value(_: Text) -> Option<f64> {
        unreachable!()
    }

    fn from_literal(text: &str) -> Option<Real> {
        text.parse().ok().map(Real)
    }
}

impl CoefficientFormat for Real {
    fn formatted(&self, _: bool, _: bool, _: PolynomialFormat) -> Text {
        unreachable!()
    }

    fn format_coefficient(
        &self,
        w: &mut String,
        is_leading_term: bool,
        is_last_term: bool,
        _format: &PolynomialFormat,
    ) {
        polynomials::polynomial::display::format_plain(self, w, is_leading_term, is_last_term);
    }
}

fn reals(values: &[f64]) -> Vec<Real> {
    values.iter().map(|v| Real(*v)).collect()
}

#[test]
fn is_zero_works() {
    let mut poly = Polynomial::zero();
    assert!(poly.is_zero());
    poly.set_coefficient_at(0, Real(3.0));
    assert!(!poly.is_zero());
}

#[test]
fn degree_works() {
    let mut poly = Polynomial::from_coefficients(&reals(&[-2.0]));
    assert_eq!(poly.degree(), Some(0));

    poly.set_coefficient_at(2, Real(3.0));
    assert_eq!(poly.degree(), Some(2));

    poly.set_coefficient_at(1, Real(2.0));
    assert_eq!(poly.degree(), Some(2));

    poly.set_coefficient_at(5, Real(0.0));
    assert_eq!(poly.degree(), Some(2));

    poly.set_coefficient_at(1234, Real(1.0));
    assert_eq!(poly.degree(), Some(1234));
}

#[test]
fn degree_handles_zero_polynomial() {
    let poly: Polynomial<Real> = Polynomial::zero();
    assert_eq!(poly.degree(), None);
}

#[test]
fn polynomial_clear() {
    let mut poly = Polynomial::from_coefficients(&reals(&[1.0, 2.0, -3.0]));
    poly.clear();
    assert!(poly.is_zero());
}

#[test]
fn polynomial_equality() {
    let poly1 = Polynomial::from_coefficients(&reals(&[1.0, 2.0, -3.0]));
    let poly2 = Polynomial::from_coefficients(&reals(&[1.0, 2.0, -3.0]));
    assert_eq!(poly1, poly2);
}

#[test]
fn evaluate_works() {
    let poly = Polynomial::from_coefficients(&reals(&[3.0, 2.0, 0.0, -3.0]));
    assert_eq!(Real(-19.0), poly.evaluate(Real(-2.0)));
}

#[test]
fn derivative_works() {
    let poly = Polynomial::from_coefficients(&reals(&[3.0, 2.0, 0.0, -3.0]));
    let derivative = poly.derivative();
    assert_eq!(reals(&[9.0, 4.0, 0.0]), derivative.get_coefficients());
}

#[test]
fn add() {
    let poly1 = Polynomial::from_coefficients(&reals(&[1.0, 2.0, -3.0]));
    let poly2 = Polynomial::from_coefficients(&reals(&[-2.0, -2.0, -1.0]));
    let poly3 = poly1 + &poly2;
    assert_eq!(reals(&[-1.0, 0.0, -4.0]), poly3.get_coefficients());
}

#[test]
fn add_scalar() {
    let poly = Polynomial::from_coefficients(&reals(&[-2.0, 0.0, 1.0]));
    let poly_plus_two = poly + Real(2.0);
    assert_eq!(reals(&[-2.0, 0.0, 3.0]), poly_plus_two.get_coefficients());
}

#[test]
fn add_assign() {
    let mut poly1 = Polynomial::from_coefficients(&reals(&[1.0, 2.0, -3.0]));
    let poly2 = Polynomial::from_coefficients(&reals(&[-2.0, -2.0, -1.0]));
    poly1 += &poly2;
    assert_eq!(reals(&[-1.0, 0.0, -4.0]), poly1.get_coefficients());
}

#[test]
fn add_assign_scalar() {
    let mut poly = Polynomial::from_coefficients(&reals(&[-2.0, 0.0, 1.0]));
    poly += Real(2.0);
    assert_eq!(reals(&[-2.0, 0.0, 3.0]), poly.get_coefficients());
}

#[test]
fn div() {
    let numerator = Polynomial::from_coefficients(&reals(&[-4.0, 12.0, -21.0, 19.0, 0.0]));
    let denominator = Polynomial::from_coefficients(&reals(&[2.0, -3.0, 5.0]));
    let div_result = numerator / &denominator;
    assert_eq!(reals(&[-2.0, 3.0, -1.0]), div_result.quotient.get_coefficients());
    assert_eq!(reals(&[1.0, 5.0]), div_result.remainder.get_coefficients());
}

#[test]
fn div_scalar() {
    let poly = Polynomial::from_coefficients(&reals(&[1.0, 2.0, -3.0]));
    let poly_divided_by_two = poly / Real(2.0);
    assert_eq!(reals(&[0.5, 1.0, -1.5]), poly_divided_by_two.get_coefficients());
}

#[test]
fn div_assign() {
    let mut poly = Polynomial::from_coefficients(&reals(&[1.0, 4.0, -1.0, -3.0]));
    let divisor = Polynomial::from_coefficients(&reals(&[1.0, 2.0, -3.0]));
    poly /= &divisor;
    assert_eq!(reals(&[1.0, 2.0]), poly.get_coefficients());
}

#[test]
fn div_assign_scalar() {
    let mut poly = Polynomial::from_coefficients(&reals(&[1.0, 2.0, -3.0]));
    poly /= Real(2.0);
    assert_eq!(reals(&[0.5, 1.0, -1.5]), poly.get_coefficients());
}

#[test]
fn rem() {
    let numerator = Polynomial::from_coefficients(&reals(&[1.0, 4.0, -1.0, -3.0]));
    let denominator = Polynomial::from_coefficients(&reals(&[1.0, 2.0, -3.0]));
    let remainder = numerator % &denominator;
    assert_eq!(reals(&[-2.0, 3.0]), remainder.get_coefficients());
}

#[test]
fn rem_assign() {
    let mut poly = Polynomial::from_coefficients(&reals(&[1.0, 4.0, -1.0, -3.0]));
    let divisor = Polynomial::from_coefficients(&reals(&[1.0, 2.0, -3.0]));
    poly %= &divisor;
    assert_eq!(reals(&[-2.0, 3.0]), poly.get_coefficients());
}

#[test]
fn mul() {
    let poly1 = Polynomial::from_coefficients(&reals(&[1.0, -2.0]));
    let poly2 = Polynomial::from_coefficients(&reals(&[-2.0, 0.0, 3.0]));
    let poly3 = poly1 * &poly2;
    assert_eq!(reals(&[-2.0, 4.0, 3.0, -6.0]), poly3.get_coefficients());
}

#[test]
fn mul_scalar() {
    let poly = Polynomial::from_coefficients(&reals(&[-2.0, 0.0, 1.0]));
    let poly_times_two = poly * Real(2.0);
    assert_eq!(reals(&[-4.0, 0.0, 2.0]), poly_times_two.get_coefficients());
}

#[test]
fn mul_assign() {
    let mut poly1 = Polynomial::from_coefficients(&reals(&[1.0, -2.0]));
    let poly2 = Polynomial::from_coefficients(&reals(&[-2.0, 0.0, 3.0]));
    poly1 *= &poly2;
    assert_eq!(reals(&[-2.0, 4.0, 3.0, -6.0]), poly1.get_coefficients());
}

#[test]
fn mul_assign_scalar() {
    let mut poly = Polynomial::from_coefficients(&reals(&[-2.0, 0.0, 1.0]));
    poly *= Real(2.0);
    assert_eq!(reals(&[-4.0, 0.0, 2.0]), poly.get_coefficients());
}

/// Check whether the polynomial is normalised correctly after the multiplication
#[test]
fn mul_by_scalar_zero() {
    let poly = Polynomial::from_coefficients(&reals(&[-2.0, 0.0, 1.0]));
    let poly_times_zero = poly * Real(0.0);
    assert_eq!(Polynomial::zero(), poly_times_zero);
}

#[test]
fn polynomial_negation() {
    let poly1 = Polynomial::from_coefficients(&reals(&[1.0, 2.0, -3.0]));
    let poly2 = Polynomial::from_coefficients(&reals(&[-1.0, -2.0, 3.0]));
    assert_eq!(poly1, -poly2);
}

#[test]
fn sub() {
    let poly1 = Polynomial::from_coefficients(&reals(&[1.0, 2.0, -3.0]));
    let poly2 = Polynomial::from_coefficients(&reals(&[-2.0, 2.0, -1.0]));
    let poly3 = poly1 - &poly2;
    assert_eq!(reals(&[3.0, 0.0, -2.0]), poly3.get_coefficients());
}

#[test]
fn sub_scalar() {
    let poly = Polynomial::from_coefficients(&reals(&[-2.0, 0.0, 1.0]));
    let poly_minus_two = poly - Real(2.0);
    assert_eq!(reals(&[-2.0, 0.0, -1.0]), poly_minus_two.get_coefficients());
}

#[test]
fn sub_assign() {
    let mut poly1 = Polynomial::from_coefficients(&reals(&[1.0, 2.0, -3.0]));
    let poly2 = Polynomial::from_coefficients(&reals(&[-2.0, 2.0, -1.0]));
    poly1 -= &poly2;
    assert_eq!(reals(&[3.0, 0.0, -2.0]), poly1.get_coefficients());
}

#[test]
fn sub_assign_scalar() {
    let mut poly = Polynomial::from_coefficients(&reals(&[-2.0, 0.0, 1.0]));
    poly -= Real(2.0);
    assert_eq!(reals(&[-2.0, 0.0, -1.0]), poly.get_coefficients());
}

#[test]
fn from_coefficients_works_correctly() {
    let poly = Polynomial::from_coefficients(&reals(&[0.0, 2.0, 0.0, 2.0, -3.0]));
    assert_eq!(reals(&[2.0, 0.0, 2.0, -3.0]), poly.get_coefficients());
}

#[test]
fn get_coefficients_works() {
    let coefficients = reals(&[2.0, 0.0, 2.0, -3.0]);
    let poly = Polynomial::from_coefficients(&coefficients);
    assert_eq!(coefficients, poly.get_coefficients());
}

#[test]
fn get_coefficients_handles_zero_polynomial_case() {
    let poly = Polynomial::zero();
    assert_eq!(Vec::<Real>::new(), poly.get_coefficients());
}

#[test]
fn get_coefficients_handles_trailing_zero_coefficients() {
    let coefficients = reals(&[1.0, 0.0, 0.0]);
    let poly = Polynomial::from_coefficients(&coefficients);
    assert_eq!(coefficients, poly.get_coefficients());
}

#[test]
fn to_string_float() {
    let poly = Polynomial::from_coefficients(&reals(&[1.0, 2.5, -3.0]));
    assert_eq!("x^2 + 2.5x - 3", poly.to_string());
}

#[test]
fn to_string_complex() {
    let poly = Polynomial::from_coefficients(&vec![
        Complex::new(Real(1.0), Real(-2.5)),
        Complex::new(Real(1.0), Real(0.0)),
        Complex::new(Real(0.0), Real(-2.0)),
        Complex::new(Real(-3.0), Real(-2.0)),
        Complex::new(Real(2.0), Real(-6.0)),
    ]);
    assert_eq!(
        "(1-2.5i)*x^4 + x^3 - 2ix^2 + (-3-2i)*x + 2-6i",
        poly.to_string()
    );
}

#[test]
fn to_string_handles_single_coefficient() {
    let poly = Polynomial::from_coefficients(&reals(&[5.0]));
    assert_eq!("5", poly.to_string());
}

#[test]
fn to_string_handles_negative_coefficients() {
    let poly = Polynomial::from_coefficients(&reals(&[-2.0, -3.0, -1.0]));
    assert_eq!("- 2x^2 - 3x - 1", poly.to_string());
}

#[test]
fn to_string_handles_coefficient_one() {
    let poly = Polynomial::from_coefficients(&reals(&[1.0, 0.0, 0.0]));
    assert_eq!("x^2", poly.to_string());

    let poly = Polynomial::from_coefficients(&reals(&[-1.0]));
    assert_eq!("- 1", poly.to_string());
}

#[test]
fn to_string_handles_high_degree() {
    let mut poly = Polynomial::zero();
    poly.set_coefficient_at(10, Real(2.0));
    poly.set_coefficient_at(5, Real(-3.0));
    poly.set_coefficient_at(0, Real(1.0));
    assert_eq!("2x^10 - 3x^5 + 1", poly.to_string());
}

#[test]
fn to_string_handles_zero_polynomial() {
    let poly: Polynomial<Real> = Polynomial::zero();
    assert_eq!("0", poly.to_string());
}

#[test]
fn format_with_latex_float() {
    let poly = Polynomial::from_coefficients(&reals(&[1.0, 2.0, -3.0]));
    assert_eq!("x^{2} + 2x - 3", poly.format_with(PolynomialFormat::Latex));
}

#[test]
fn format_with_concise_works() {
    let poly = Polynomial::from_coefficients(&reals(&[1.0, 2.0, -3.0]));
    assert_eq!("x2 + 2x - 3", poly.format_with(PolynomialFormat::Concise));
}

#[test]
fn format_with_concise_float() {
    let poly = Polynomial::from_coefficients(&reals(&[1.0, 2.5, -3.0]));
    assert_eq!("x2 + 2.5x - 3", poly.format_with(PolynomialFormat::Concise));
}

#[test]
fn from_string_integer_coefficients() {
    let poly = Polynomial::from_str("-x^4 - 2x^3 + 10x2 - x + 5").unwrap();
    assert_eq!(reals(&[-1.0, -2.0, 10.0, -1.0, 5.0]), poly.get_coefficients());
}

#[test]
fn from_string_decimal_coefficients() {
    let poly = Polynomial::from_str("1.5x^2 - 0.5x + 2.125").unwrap();
    assert_eq!(reals(&[1.5, -0.5, 2.125]), poly.get_coefficients());
}

#[test]
fn from_string_concise_spacing() {
    let poly = Polynomial::from_str("x^2+x-5").unwrap();
    assert_eq!(reals(&[1.0, 1.0, -5.0]), poly.get_coefficients());
}

#[test]
fn from_string_omitted_carets() {
    let poly = Polynomial::from_str("x4 - 2x3 + 5x2 - x").unwrap();
    assert_eq!(reals(&[1.0, -2.0, 5.0, -1.0, 0.0]), poly.get_coefficients());
}

#[test]
fn from_string_with_asterisks() {
    let poly = Polynomial::from_str("- 2 * x^2 -3*x + 5").unwrap();
    assert_eq!(reals(&[-2.0, -3.0, 5.0]), poly.get_coefficients());
}

#[test]
fn from_string_empty() {
    let poly: Polynomial<Real> = Polynomial::from_str("").unwrap();
    assert!(poly.is_zero());
}
