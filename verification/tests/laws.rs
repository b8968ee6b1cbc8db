use polynomials::algebra::{raise, Ring};
use polynomials::polynomial::parsing::{is_whitespace, parse_coefficient};
use polynomials::{Complex, Integer, Polynomial, PolynomialFormat, Rational};

fn integers(values: &[i64]) -> Vec<Integer> {
    values.iter().map(|v| Integer::new(*v)).collect()
}

fn rationals(values: &[(i64, i64)]) -> Vec<Rational> {
    values.iter().map(|v| Rational::new(v.0, v.1)).collect()
}

fn whole(values: &[i64]) -> Vec<Rational> {
    values.iter().map(|v| Rational::from_integer(*v)).collect()
}

/// The sum of `coefficient * x^power` over all terms.
fn direct_sum(poly: &Polynomial<Rational>, x: &Rational) -> Rational {
    let mut sum = Rational::zero();
    if let Some(degree) = poly.degree() {
        for power in 0..=degree {
            sum = sum.plus(&poly.get_coefficient_at(power).times(&raise(x, power)));
        }
    }
    sum
}

#[test]
fn no_zero_coefficient_is_stored() {
    let mut poly = Polynomial::from_coefficients(&integers(&[0, 3, 0, 0]));
    assert_eq!(Some(2), poly.degree());
    poly.add_coefficient_at(2, Integer::new(-3));
    assert!(poly.is_zero());
    assert_eq!(None, poly.degree());
    assert_eq!(Polynomial::zero(), poly);

    let mut poly = Polynomial::from_coefficients(&integers(&[1, 2]));
    poly.sub_coefficient_at(1, Integer::new(1));
    assert_eq!(Some(0), poly.degree());
    poly.mul_coefficient_at(0, Integer::new(0));
    assert!(poly.is_zero());

    let poly = Polynomial::from_coefficients(&integers(&[1, 2]));
    let opposite = Polynomial::from_coefficients(&integers(&[-1, -2]));
    assert_eq!(Polynomial::zero(), poly + &opposite);
}

#[test]
fn coefficient_updates() {
    let mut poly = Polynomial::from_coefficients(&whole(&[1, 3, -2]));
    poly.add_coefficient_at(2, Rational::from_integer(3));
    poly.add_coefficient_at(0, Rational::from_integer(-1));
    assert_eq!(whole(&[4, 3, -3]), poly.get_coefficients());

    let mut poly = Polynomial::from_coefficients(&whole(&[1, 3, -2]));
    poly.sub_coefficient_at(2, Rational::from_integer(3));
    poly.sub_coefficient_at(0, Rational::from_integer(-1));
    assert_eq!(whole(&[-2, 3, -1]), poly.get_coefficients());

    let mut poly = Polynomial::from_coefficients(&whole(&[1, 3, -2]));
    poly.mul_coefficient_at(2, Rational::from_integer(3));
    poly.mul_coefficient_at(1, Rational::from_integer(-2));
    poly.mul_coefficient_at(0, Rational::from_integer(0));
    assert_eq!(whole(&[3, -6, 0]), poly.get_coefficients());

    let mut poly = Polynomial::from_coefficients(&whole(&[1, 3, -2]));
    poly.div_coefficient_at(2, Rational::from_integer(2));
    poly.div_coefficient_at(0, Rational::from_integer(-2));
    assert_eq!(rationals(&[(1, 2), (3, 1), (1, 1)]), poly.get_coefficients());

    let poly = Polynomial::from_coefficients(&whole(&[-1, 0, 3]));
    assert_eq!(Rational::from_integer(-1), poly.get_coefficient_at(2));
    assert_eq!(Rational::from_integer(0), poly.get_coefficient_at(1));
    assert_eq!(Rational::from_integer(3), poly.get_coefficient_at(0));
    assert_eq!(Rational::from_integer(0), poly.get_coefficient_at(77));
}

#[test]
fn dense_coefficients_round_trip() {
    for dense in [
        integers(&[5]),
        integers(&[1, 0, 0]),
        integers(&[-2, 0, 7, 0, 0, 1]),
        integers(&[3, 2, 1]),
    ] {
        let poly = Polynomial::from_coefficients(&dense);
        assert_eq!(dense, poly.get_coefficients());
        assert_eq!(Some(dense.len() as u32 - 1), poly.degree());
    }
    let empty: Vec<Integer> = Vec::new();
    assert!(Polynomial::from_coefficients(&empty).is_zero());
    assert!(Polynomial::from_coefficients(&integers(&[0, 0])).is_zero());
}

#[test]
fn text_round_trips_for_integers() {
    for dense in [
        integers(&[1, 1, -2]),
        integers(&[-1, 0, 0]),
        integers(&[-1]),
        integers(&[1]),
        integers(&[7, 0, 0, 0, 0, 0, 0, 0, 0, 0, -1, 1]),
        integers(&[12, -1, 1, 0]),
        integers(&[]),
    ] {
        let poly = Polynomial::from_coefficients(&dense);
        let text = poly.to_string();
        assert_eq!(poly, Polynomial::from_str(&text).unwrap());
    }
}

#[test]
fn text_round_trips_for_rationals() {
    for dense in [
        rationals(&[(-1, 2), (3, 7), (-1, 3)]),
        rationals(&[(1, 1), (1, 1), (1, 1)]),
        rationals(&[(-1, 1), (0, 1), (5, 1)]),
        rationals(&[(2, 3), (0, 1), (0, 1), (0, 1)]),
        rationals(&[]),
    ] {
        let poly = Polynomial::from_coefficients(&dense);
        let text = poly.to_string();
        assert_eq!(poly, Polynomial::from_str(&text).unwrap());
    }
}

#[test]
fn division_gives_quotient_and_remainder() {
    let cases = [
        (whole(&[-4, 12, -21, 19, 0]), whole(&[2, -3, 5])),
        (whole(&[1, 4, -1, -3]), whole(&[1, 2, -3])),
        (whole(&[1, 0]), whole(&[2, 0])),
        (whole(&[3]), whole(&[1, 1])),
        (whole(&[]), whole(&[7])),
        (rationals(&[(1, 2), (0, 1), (1, 3), (5, 1)]), rationals(&[(3, 1), (-1, 7)])),
    ];
    for (numerator, denominator) in cases {
        let numerator = Polynomial::from_coefficients(&numerator);
        let denominator = Polynomial::from_coefficients(&denominator);
        let result = numerator.clone() / &denominator;
        let restored = (result.quotient * &denominator) + &result.remainder;
        assert_eq!(numerator, restored);
        assert!(result.remainder.is_zero() || result.remainder.degree() < denominator.degree());
    }
}

#[test]
fn division_of_complex_polynomials() {
    let re = |n: i64| Complex::new(Rational::from_integer(n), Rational::from_integer(0));
    let i = Complex::new(Rational::from_integer(0), Rational::from_integer(1));
    // x^2 + 1 == (x - i) * (x + i)
    let numerator = Polynomial::from_coefficients(&vec![re(1), re(0), re(1)]);
    let denominator = Polynomial::from_coefficients(&vec![re(1), i.negated()]);
    let result = numerator / &denominator;
    assert_eq!(Polynomial::from_coefficients(&vec![re(1), i]), result.quotient);
    assert!(result.remainder.is_zero());
    let parsed: Polynomial<Complex<Rational>> =
        Polynomial::from_str("(1/2 + i)x^2 - ix + 3/4").unwrap();
    let half_plus_i = Complex::new(Rational::new(1, 2), Rational::from_integer(1));
    let three_quarters = Complex::new(Rational::new(3, 4), Rational::from_integer(0));
    let i = Complex::new(Rational::from_integer(0), Rational::from_integer(1));
    assert_eq!(vec![half_plus_i, i.negated(), three_quarters], parsed.get_coefficients());
    assert_eq!("(1/2+1i)*x^2 - 1/1*ix + 3/4", parsed.to_string());
}

#[test]
fn division_by_a_higher_degree_leaves_the_numerator() {
    let numerator = Polynomial::from_coefficients(&whole(&[3, 1]));
    let denominator = Polynomial::from_coefficients(&whole(&[1, 0, 0]));
    let result = numerator.clone() / &denominator;
    assert!(result.quotient.is_zero());
    assert_eq!(numerator, result.remainder);
}

#[test]
fn evaluation_is_the_sum_of_the_terms() {
    let polys = [
        whole(&[2, -2, 0, -1]),
        whole(&[3, 2, 0, -3]),
        whole(&[1, 0, 0]),
        whole(&[4, 0, 0, 0, 2, 0]),
        whole(&[9]),
        whole(&[]),
        rationals(&[(1, 2), (0, 1), (-3, 4), (0, 1)]),
    ];
    let points = rationals(&[(0, 1), (1, 1), (-2, 1), (3, 1), (1, 2), (-5, 3)]);
    for dense in polys {
        let poly = Polynomial::from_coefficients(&dense);
        for x in &points {
            assert_eq!(direct_sum(&poly, x), poly.evaluate(x.clone()));
        }
    }
}

#[test]
fn evaluation_without_a_constant_term() {
    let poly = Polynomial::from_coefficients(&integers(&[1, 0, 0]));
    assert_eq!(Integer::new(9), poly.evaluate(Integer::new(3)));
    let poly = Polynomial::from_coefficients(&integers(&[2, 0, 0, 1, 0]));
    assert_eq!(Integer::new(34), poly.evaluate(Integer::new(2)));
    let zero: Polynomial<Integer> = Polynomial::zero();
    assert_eq!(Integer::new(0), zero.evaluate(Integer::new(5)));
}

#[test]
fn the_derivative_of_a_sum_is_the_sum_of_the_derivatives() {
    let p = Polynomial::from_coefficients(&integers(&[1, -2, 0, -10]));
    let q = Polynomial::from_coefficients(&integers(&[-1, 2, 5, 3, 1]));
    let left = (p.clone() + &q).derivative();
    let right = p.derivative() + &q.derivative();
    assert_eq!(left, right);
    assert_eq!(integers(&[-4, 9, 6, 3]), left.get_coefficients());
}

#[test]
fn derivative_values() {
    let poly = Polynomial::from_coefficients(&integers(&[1, -2, 0, -10]));
    assert_eq!(integers(&[3, -4, 0]), poly.derivative().get_coefficients());
    let constant = Polynomial::from_coefficients(&integers(&[7]));
    assert!(constant.derivative().is_zero());
    let zero: Polynomial<Integer> = Polynomial::zero();
    assert!(zero.derivative().is_zero());
}

#[test]
fn a_quadratic_in_the_standard_format() {
    let poly = Polynomial::from_coefficients(&integers(&[1, 1, -2]));
    assert_eq!("x^2 + x - 2", poly.format_with(PolynomialFormat::Standard));
}

#[test]
fn a_cubic_at_minus_two() {
    let poly = Polynomial::from_coefficients(&integers(&[2, -2, 0, -1]));
    assert_eq!(Integer::new(-25), poly.evaluate(Integer::new(-2)));
}

#[test]
fn a_quadratic_from_text() {
    let poly: Polynomial<Integer> = Polynomial::from_str("2x^2 + 3x - 1").unwrap();
    assert_eq!(Polynomial::from_coefficients(&integers(&[2, 3, -1])), poly);
}

#[test]
fn a_quartic_divided_by_a_quadratic() {
    let numerator = Polynomial::from_coefficients(&whole(&[-4, 12, -21, 19, 0]));
    let denominator = Polynomial::from_coefficients(&whole(&[2, -3, 5]));
    let result = numerator / &denominator;
    assert_eq!(Polynomial::from_coefficients(&whole(&[-2, 3, -1])), result.quotient);
    assert_eq!(Polynomial::from_coefficients(&whole(&[1, 5])), result.remainder);
}

#[test]
fn a_product_with_zero_is_the_zero_polynomial() {
    let poly = Polynomial::from_coefficients(&integers(&[-2, 0, 1]));
    let product = poly * Integer::new(0);
    assert_eq!(Polynomial::zero(), product);
    assert!(product.is_zero());
    assert_eq!(None, product.degree());
}

#[test]
fn the_empty_text_and_texts_that_are_refused() {
    let poly: Polynomial<Integer> = Polynomial::from_str("").unwrap();
    assert!(poly.is_zero());
    assert!(Polynomial::<Integer>::from_str("2y^2 + 3y").is_err());
    assert!(Polynomial::<Integer>::from_str("2x^2.5").is_err());
    assert!(Polynomial::<Rational>::from_str("2y^2 + 3y").is_err());
    assert!(Polynomial::<Rational>::from_str("2x^2.5").is_err());
}

#[test]
fn to_string_rational() {
    let poly = Polynomial::from_coefficients(&rationals(&[(-1, 2), (3, 7), (-1, 3)]));
    assert_eq!("- 1/2*x^2 + 3/7*x - 1/3", poly.to_string());
}

#[test]
fn format_with_latex_rational() {
    let poly = Polynomial::from_coefficients(&rationals(&[(-1, 2), (3, 7), (-4, 3)]));
    assert_eq!(
        r"- \frac{1}{2}\cdotx^{2} + \frac{3}{7}\cdotx - \frac{4}{3}",
        poly.format_with(PolynomialFormat::Latex)
    )
}

#[test]
fn format_with_concise_rational() {
    let poly = Polynomial::from_coefficients(&rationals(&[(-1, 2), (3, 7), (-4, 3)]));
    assert_eq!("- 1/2*x2 + 3/7*x - 4/3", poly.format_with(PolynomialFormat::Concise))
}

#[test]
fn rational_ones_are_left_out() {
    let poly = Polynomial::from_coefficients(&rationals(&[(1, 1), (-1, 1), (1, 1)]));
    assert_eq!("*x^2 - 1/1*x + 1/1", poly.to_string());
}

#[test]
fn integers_in_every_format() {
    let poly = Polynomial::from_coefficients(&integers(&[-1, 0, 12, 1, 0, -1]));
    assert_eq!("- x^5 + 12x^3 + x^2 - 1", poly.format_with(PolynomialFormat::Standard));
    assert_eq!("- x^{5} + 12x^{3} + x^{2} - 1", poly.format_with(PolynomialFormat::Latex));
    assert_eq!("- x5 + 12x3 + x2 - 1", poly.format_with(PolynomialFormat::Concise));
    let mut high = Polynomial::zero();
    high.set_coefficient_at(u32::MAX, Integer::new(3));
    high.set_coefficient_at(1, Integer::new(-1));
    assert_eq!("3x^4294967295 - x", high.to_string());
    let zero: Polynomial<Integer> = Polynomial::zero();
    assert_eq!("0", zero.format_with(PolynomialFormat::Latex));
}

#[test]
fn complex_integers_as_text() {
    let poly = Polynomial::from_coefficients(&vec![
        Complex::new(Integer::new(1), Integer::new(-2)),
        Complex::new(Integer::new(1), Integer::new(0)),
        Complex::new(Integer::new(0), Integer::new(-2)),
        Complex::new(Integer::new(-3), Integer::new(-2)),
        Complex::new(Integer::new(2), Integer::new(6)),
    ]);
    assert_eq!("(1-2i)*x^4 + x^3 - 2ix^2 + (-3-2i)*x + 2+6i", poly.to_string());
    assert_eq!(
        r"(1-2i)\cdotx^{4} + x^{3} - 2ix^{2} + (-3-2i)\cdotx + 2+6i",
        poly.format_with(PolynomialFormat::Latex)
    );
}

#[test]
fn from_string_rational() {
    let poly: Polynomial<Rational> = Polynomial::from_str("-1/2x3 + 3/-4x2 -x - 7/5").unwrap();
    assert_eq!(
        vec![
            Rational::new(-1, 2),
            Rational::new(3, -4),
            Rational::new(-1, 1),
            Rational::new(-7, 5)
        ],
        poly.get_coefficients()
    )
}

#[test]
fn from_string_complex() {
    let poly: Polynomial<Complex<Integer>> =
        Polynomial::from_str("(-1 + 2i)x^4 - (3 - i)x3 + 5x2 - ix - 5 + 2i").unwrap();
    assert_eq!(
        vec![
            Complex::new(Integer::new(-1), Integer::new(2)),
            Complex::new(Integer::new(-3), Integer::new(1)),
            Complex::new(Integer::new(5), Integer::new(0)),
            Complex::new(Integer::new(0), Integer::new(-1)),
            Complex::new(Integer::new(-5), Integer::new(2))
        ],
        poly.get_coefficients()
    )
}

#[test]
fn from_string_invalid_formats() {
    let err = Polynomial::<Rational>::from_str("1.5.2x").unwrap_err();
    assert!(err.0.contains("'1.5.2'"));

    let err = Polynomial::<Complex<Integer>>::from_str("+(1-ix").unwrap_err();
    assert!(err.0.contains("not closed"));
}

#[test]
fn every_parsing_error() {
    let err = Polynomial::<Integer>::from_str("2x + 3y").unwrap_err();
    assert_eq!("no term can be read from 'y'", err.0);
    let err = Polynomial::<Integer>::from_str("2x^}").unwrap_err();
    assert_eq!("no term can be read from '^}'", err.0);
    let err = Polynomial::<Integer>::from_str("3x + (2x").unwrap_err();
    assert_eq!("the bracket was not closed in the term '+(2x'", err.0);
    let err = Polynomial::<Integer>::from_str("2)x").unwrap_err();
    assert_eq!("the bracket was not closed in the term '2)x'", err.0);
    let err = Polynomial::<Integer>::from_str("x^2 + ").unwrap_err();
    assert_eq!("the term '+' has neither a coefficient nor an indeterminate", err.0);
    let err = Polynomial::<Integer>::from_str("^2").unwrap_err();
    assert_eq!("the term '^2' has neither a coefficient nor an indeterminate", err.0);
    let err = Polynomial::<Integer>::from_str("()").unwrap_err();
    assert_eq!("the term '()' has neither a coefficient nor an indeterminate", err.0);
    let err = Polynomial::<Integer>::from_str("1.5x").unwrap_err();
    assert_eq!("could not parse '1.5' as a coefficient", err.0);
    let err = Polynomial::<Integer>::from_str("5-2x").unwrap_err();
    assert_eq!("could not parse '5-2' as a coefficient", err.0);
    let err = Polynomial::<Integer>::from_str("x^4294967296").unwrap_err();
    assert_eq!("the exponent '4294967296' is too large", err.0);
    let err = parse_coefficient::<Integer>("1e3").unwrap_err();
    assert_eq!("could not parse '1e3' as a coefficient", err.0);
    assert_eq!(Integer::new(-12), parse_coefficient::<Integer>("-12").unwrap());
}

#[test]
fn parsing_forms() {
    let expected = Polynomial::from_coefficients(&integers(&[-2, -3, 5]));
    for text in [
        "-2x^2-3x+5",
        " - 2 * x^2 -3*x + 5 ",
        "-2x2 - 3x1 + 5",
        "-2x^{2} - 3x^{1} + 5x^0",
        "5x0 - 3x - 2x^2",
        "\t-2x^2\n-3x\u{a0}+ 5",
        "-(2)x^2 + (-3)x + (5)",
        "-x^2 - x^2 - 4x + x + 2x0 + 3",
    ] {
        assert_eq!(expected, Polynomial::from_str(text).unwrap(), "{}", text);
    }
    let power: Polynomial<Integer> = Polynomial::from_str("x^4294967295").unwrap();
    assert_eq!(Some(u32::MAX), power.degree());
    let cancelled: Polynomial<Integer> = Polynomial::from_str("x - x").unwrap();
    assert!(cancelled.is_zero());
    // a sign can stand in a coefficient: a constant takes the term behind it in
    let err = Polynomial::<Integer>::from_str("5 - 3x").unwrap_err();
    assert_eq!("could not parse '5-3' as a coefficient", err.0);
}

#[test]
fn white_space() {
    for c in [' ', '\t', '\n', '\r', '\u{b}', '\u{c}', '\u{85}', '\u{a0}', '\u{2003}', '\u{3000}']
    {
        assert!(is_whitespace(c));
        assert!(c.is_whitespace());
    }
    for c in ['x', '0', '+', '\u{200b}', '_'] {
        assert!(!is_whitespace(c));
        assert!(!c.is_whitespace());
    }
}

#[test]
fn products_and_scalars() {
    let a = Polynomial::from_coefficients(&integers(&[1, -1]));
    let b = Polynomial::from_coefficients(&integers(&[1, 2]));
    assert_eq!(Polynomial::from_coefficients(&integers(&[1, 1, -2])), a.clone() * &b);
    assert_eq!(Polynomial::zero(), a.clone() * &Polynomial::zero());
    assert_eq!(Polynomial::from_coefficients(&integers(&[-3, 3])), a.clone() * Integer::new(-3));
    assert_eq!(Polynomial::from_coefficients(&integers(&[-1, 1])), -a.clone());
    assert_eq!(Polynomial::from_coefficients(&integers(&[1, 4])), a.clone() + Integer::new(5));
    assert_eq!(Polynomial::from_coefficients(&integers(&[1, 0])), a.clone() - Integer::new(-1));
    assert_eq!(Polynomial::from_coefficients(&integers(&[-3])), a - &b);
    let halved = Polynomial::from_coefficients(&whole(&[2, 0, -4])) / Rational::from_integer(2);
    assert_eq!(Polynomial::from_coefficients(&whole(&[1, 0, -2])), halved);
}
