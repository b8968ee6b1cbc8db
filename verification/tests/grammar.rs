use polynomials::algebra::Ring;
use polynomials::text::Literal;
use polynomials::{Integer, Polynomial, Rational};
use regex::Regex;

/// The polynomial that the terms of a text add up to, where the terms are
/// found with a pattern.
fn by_pattern<T: Ring + Literal>(text: &str) -> Option<Polynomial<T>> {
    let opening = r"((?<bracket_sign>[+-])?(?<opening_bracket>\())?";
    let coefficient = r"(?<coefficient>[0-9.ij+\-/]+)?(?<closing_bracket>\))?\*?";
    let power = r"(?<indeterminate>x)?(\^?\{?(?<exponent>\d+)}?)?";
    let term = Regex::new(&format!("{}{}{}", opening, coefficient, power)).unwrap();
    let string: String = text.chars().filter(|c| !c.is_whitespace()).collect();
    let mut poly = Polynomial::zero();
    let mut at = 0;
    while at < string.len() {
        let caps = term.captures_at(&string, at)?;
        let all = caps.get(0)?;
        if all.start() != at || all.end() == at {
            return None;
        }
        if caps.name("opening_bracket").is_some() != caps.name("closing_bracket").is_some() {
            return None;
        }
        let indeterminate = caps.name("indeterminate").is_some();
        let coefficient = match caps.name("coefficient").map(|m| m.as_str()) {
            None | Some("+") | Some("-") if !indeterminate => return None,
            None | Some("+") => T::one(),
            Some("-") => T::one().negated(),
            Some(literal) => T::from_literal(literal)?,
        };
        let coefficient = match caps.name("bracket_sign").map(|m| m.as_str()) {
            Some("-") => coefficient.negated(),
            _ => coefficient,
        };
        let exponent: u32 = match caps.name("exponent") {
            Some(digits) => digits.as_str().parse().ok()?,
            None if indeterminate => 1,
            None => 0,
        };
        poly.add_coefficient_at(exponent, coefficient);
        at = all.end();
    }
    Some(poly)
}

const TEXTS: [&str; 44] = [
    "",
    "0",
    "x",
    "-x",
    "+x",
    "2x^2 + 3x - 1",
    "-x^4 - 2x^3 + 10x2 - x + 5",
    "x^2+x-5",
    "x4 - 2x3 + 5x2 - x",
    "- 2 * x^2 -3*x + 5",
    "-1/2x3 + 3/-4x2 -x - 7/5",
    "2y^2 + 3y",
    "2x^2.5",
    "5 - 3x",
    "3x + (2x",
    "2)x",
    "(2)x",
    "-(2)x^{3}",
    "+(-2)x^{3",
    "x^{3}}",
    "x^",
    "x^{",
    "x^{}",
    "x{2}",
    "^2",
    "2^2",
    "*x",
    "2**x",
    "2*",
    "()",
    "()x",
    "(+)x",
    "-(-)x",
    "+",
    "x +",
    "xx",
    "x2x3",
    "x^4294967295",
    "x^4294967296",
    "x^00000000000000000002",
    "1_0x",
    "1/0x",
    "++x",
    "3 x ^ 2",
];

#[test]
fn terms_are_found_as_by_the_pattern_for_integers() {
    for text in TEXTS {
        let expected: Option<Polynomial<Integer>> = by_pattern(text);
        let found: Option<Polynomial<Integer>> = Polynomial::from_str(text).ok();
        assert_eq!(expected, found, "{:?}", text);
    }
}

#[test]
fn terms_are_found_as_by_the_pattern_for_rationals() {
    for text in TEXTS {
        let expected: Option<Polynomial<Rational>> = by_pattern(text);
        let found: Option<Polynomial<Rational>> = Polynomial::from_str(text).ok();
        assert_eq!(expected, found, "{:?}", text);
    }
}
