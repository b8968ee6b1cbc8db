use polynomials::algebra::{raise, Field, Ring, Signed};
use polynomials::text::{Literal, PlainText};
use polynomials::{Complex, Integer, Rational};

fn integer(text: &str) -> Integer {
    Integer::from_literal(text).unwrap()
}

fn rational(text: &str) -> Rational {
    Rational::from_literal(text).unwrap()
}

#[test]
fn integer_new_agrees_with_literals() {
    assert_eq!(integer("0"), Integer::new(0));
    assert_eq!(integer("7"), Integer::new(7));
    assert_eq!(integer("-7"), Integer::new(-7));
    assert_eq!(integer("9223372036854775807"), Integer::new(i64::MAX));
    assert_eq!(integer("-9223372036854775808"), Integer::new(i64::MIN));
    assert_eq!(integer("4294967296"), Integer::new(4294967296));
}

#[test]
fn integer_literals_follow_the_grammar() {
    assert_eq!(Some(Integer::new(1000)), Integer::from_literal("+1_000"));
    assert_eq!(Some(Integer::new(-12)), Integer::from_literal("-0012"));
    assert_eq!(Some(Integer::new(0)), Integer::from_literal("-0"));
    assert_eq!(Some(Integer::new(5)), Integer::from_literal("5__"));
    assert_eq!(None, Integer::from_literal(""));
    assert_eq!(None, Integer::from_literal("-"));
    assert_eq!(None, Integer::from_literal("+"));
    assert_eq!(None, Integer::from_literal("_5"));
    assert_eq!(None, Integer::from_literal("+_5"));
    assert_eq!(None, Integer::from_literal("-+5"));
    assert_eq!(None, Integer::from_literal("++5"));
    assert_eq!(None, Integer::from_literal("1.5"));
    assert_eq!(None, Integer::from_literal("12a"));
    assert_eq!(None, Integer::from_literal(" 1"));
}

#[test]
fn integer_sum_is_computed() {
    assert_eq!(integer("5"), Integer::new(2).plus(&Integer::new(3)));
    assert_eq!(integer("-1"), Integer::new(2).plus(&Integer::new(-3)));
    assert_eq!(
        integer("18446744073709551614"),
        Integer::new(i64::MAX).plus(&Integer::new(i64::MAX))
    );
}

#[test]
fn integer_difference_is_computed() {
    assert_eq!(integer("-1"), Integer::new(2).minus(&Integer::new(3)));
    assert_eq!(integer("5"), Integer::new(2).minus(&Integer::new(-3)));
    assert_eq!(integer("0"), Integer::new(4).minus(&Integer::new(4)));
}

#[test]
fn integer_product_is_computed() {
    assert_eq!(integer("6"), Integer::new(2).times(&Integer::new(3)));
    assert_eq!(integer("-6"), Integer::new(2).times(&Integer::new(-3)));
    assert_eq!(integer("0"), Integer::new(0).times(&Integer::new(-3)));
    assert_eq!(
        integer("85070591730234615847396907784232501249"),
        Integer::new(i64::MAX).times(&Integer::new(i64::MAX))
    );
}

#[test]
fn integer_negation_and_sign() {
    assert_eq!(integer("-4"), Integer::new(4).negated());
    assert_eq!(integer("4"), Integer::new(-4).negated());
    assert_eq!(integer("0"), Integer::new(0).negated());
    assert!(Integer::new(-4).is_negative());
    assert!(!Integer::new(4).is_negative());
    assert!(!Integer::new(0).is_negative());
    assert_eq!(integer("4"), Integer::new(-4).abs());
    assert_eq!(integer("4"), Integer::new(4).abs());
}

#[test]
fn integer_identities() {
    assert_eq!(integer("0"), Integer::zero());
    assert_eq!(integer("1"), Integer::one());
    assert!(Integer::zero().is_zero());
    assert!(!Integer::one().is_zero());
    assert!(!Integer::new(10).is_zero());
    assert!(Integer::one().is_one());
    assert!(!Integer::new(-1).is_one());
    assert!(!Integer::new(11).is_one());
    assert_eq!(integer("4294967295"), Integer::from_u32(u32::MAX));
    assert_eq!(integer("40"), Integer::from_u32(40));
    assert_eq!(integer("0"), Integer::from_u32(0));
    assert_eq!(Integer::new(12), Integer::new(12).duplicate());
}

#[test]
fn integer_text() {
    assert_eq!("120", Integer::new(120).magnitude_to_text());
    assert_eq!("120", Integer::new(-120).magnitude_to_text());
    assert_eq!("0", Integer::new(0).magnitude_to_text());
}

#[test]
fn powers_are_repeated_products() {
    assert_eq!(integer("1"), raise(&Integer::new(7), 0));
    assert_eq!(integer("7"), raise(&Integer::new(7), 1));
    assert_eq!(integer("-343"), raise(&Integer::new(-7), 3));
    assert_eq!(integer("1267650600228229401496703205376"), raise(&Integer::new(2), 100));
    assert_eq!(rational("8/27"), raise(&Rational::new(2, 3), 3));
}

#[test]
fn rational_new_gives_lowest_terms() {
    assert_eq!(Rational::new(-1, 2), Rational::new(2, -4));
    assert_eq!(Rational::new(3, 1), Rational::from_integer(3));
    assert_eq!(Rational::new(0, 1), Rational::new(0, -5));
    assert_eq!("1", Rational::new(2, -4).numerator_magnitude_text());
    assert_eq!("2", Rational::new(2, -4).denominator_text());
    assert!(Rational::new(2, -4).is_negative());
}

#[test]
fn rational_literals_follow_the_grammar() {
    assert_eq!(Some(Rational::new(-3, 4)), Rational::from_literal("3/-4"));
    assert_eq!(Some(Rational::new(1, 2)), Rational::from_literal("+2/4"));
    assert_eq!(Some(Rational::new(7, 1)), Rational::from_literal("7"));
    assert_eq!(None, Rational::from_literal("1/0"));
    assert_eq!(None, Rational::from_literal("1/"));
    assert_eq!(None, Rational::from_literal("/2"));
    assert_eq!(None, Rational::from_literal("1/2/3"));
    assert_eq!(None, Rational::from_literal(".5"));
    assert_eq!(None, Rational::from_literal("1.5"));
    assert_eq!(None, Rational::from_literal(""));
}

#[test]
fn rational_arithmetic_is_exact() {
    assert_eq!(rational("5/6"), Rational::new(1, 2).plus(&Rational::new(1, 3)));
    assert_eq!(rational("1/6"), Rational::new(1, 2).minus(&Rational::new(1, 3)));
    assert_eq!(rational("1/2"), Rational::new(2, 3).times(&Rational::new(3, 4)));
    assert_eq!(rational("2"), Rational::new(1, 2).divided_by(&Rational::new(1, 4)));
    assert_eq!(rational("-2/3"), Rational::new(2, 3).divided_by(&Rational::new(-1, 1)));
    assert_eq!(rational("-1/2"), Rational::new(1, 2).negated());
    assert_eq!(rational("1/2"), Rational::new(-1, 2).abs());
    assert_eq!(rational("0"), Rational::new(1, 2).minus(&Rational::new(2, 4)));
}

#[test]
fn rational_identities() {
    assert_eq!(rational("0"), Rational::zero());
    assert_eq!(rational("1"), Rational::one());
    assert!(Rational::zero().is_zero());
    assert!(!Rational::new(1, 3).is_zero());
    assert!(Rational::new(5, 5).is_one());
    assert!(!Rational::new(-1, 1).is_one());
    assert!(!Rational::new(1, 2).is_one());
    assert_eq!(rational("12"), Rational::from_u32(12));
    assert_eq!(Rational::new(1, 2), Rational::new(1, 2).duplicate());
}

#[test]
fn rational_text() {
    assert_eq!("3/4", Rational::new(-3, 4).magnitude_to_text());
    assert_eq!("3", Rational::new(3, 1).magnitude_to_text());
    assert_eq!("0", Rational::new(0, 1).magnitude_to_text());
}

#[test]
fn a_quotient_times_its_divisor_is_the_dividend() {
    let a = Rational::new(7, 3);
    let b = Rational::new(-5, 11);
    assert_eq!(a, a.divided_by(&b).times(&b));
}

#[test]
fn complex_arithmetic() {
    let a = Complex::new(Integer::new(1), Integer::new(2));
    let b = Complex::new(Integer::new(3), Integer::new(-1));
    assert_eq!(Complex::new(Integer::new(4), Integer::new(1)), a.plus(&b));
    assert_eq!(Complex::new(Integer::new(-2), Integer::new(3)), a.minus(&b));
    assert_eq!(Complex::new(Integer::new(5), Integer::new(5)), a.times(&b));
    assert_eq!(Complex::new(Integer::new(-1), Integer::new(-2)), a.negated());
    assert_eq!(a, a.duplicate());
    let i = Complex::new(Integer::new(0), Integer::new(1));
    assert_eq!(Complex::new(Integer::new(-1), Integer::new(0)), i.times(&i));
}

#[test]
fn complex_identities() {
    let zero: Complex<Integer> = Complex::zero();
    let one: Complex<Integer> = Complex::one();
    assert_eq!(Complex::new(Integer::new(0), Integer::new(0)), zero);
    assert_eq!(Complex::new(Integer::new(1), Integer::new(0)), one);
    assert!(zero.is_zero());
    assert!(!one.is_zero());
    assert!(one.is_one());
    assert!(!Complex::new(Integer::new(1), Integer::new(1)).is_one());
    assert!(!Complex::new(Integer::new(0), Integer::new(1)).is_zero());
    assert_eq!(Complex::new(Integer::new(9), Integer::new(0)), Complex::from_u32(9));
}

#[test]
fn complex_division() {
    let a = Complex::new(Rational::new(1, 1), Rational::new(2, 1));
    let b = Complex::new(Rational::new(3, 1), Rational::new(-1, 1));
    let quotient = a.divided_by(&b);
    assert_eq!(Complex::new(Rational::new(1, 10), Rational::new(7, 10)), quotient);
    assert_eq!(a, quotient.times(&b));
    let i = Complex::new(Rational::new(0, 1), Rational::new(1, 1));
    assert_eq!(
        Complex::new(Rational::new(0, 1), Rational::new(-1, 1)),
        Complex::<Rational>::one().divided_by(&i)
    );
}

#[test]
fn complex_rational_literals() {
    assert_eq!(
        Some(Complex::new(Rational::new(1, 2), Rational::new(-3, 4))),
        Complex::<Rational>::from_literal("2/4-3/4i")
    );
    assert_eq!(
        Some(Complex::new(Rational::new(0, 1), Rational::new(1, 1))),
        Complex::<Rational>::from_literal("i")
    );
    assert_eq!(
        Some(Complex::new(Rational::new(-7, 1), Rational::new(0, 1))),
        Complex::<Rational>::from_literal("-7")
    );
    assert_eq!(None, Complex::<Rational>::from_literal("1/0+i"));
    assert_eq!(None, Complex::<Rational>::from_literal("1+2"));
}

#[test]
fn complex_literals() {
    assert_eq!(
        Some(Complex::new(Integer::new(-1), Integer::new(2))),
        Complex::<Integer>::from_literal("-1+2i")
    );
    assert_eq!(
        Some(Complex::new(Integer::new(3), Integer::new(-1))),
        Complex::<Integer>::from_literal("3-i")
    );
    assert_eq!(
        Some(Complex::new(Integer::new(0), Integer::new(-1))),
        Complex::<Integer>::from_literal("-i")
    );
    assert_eq!(
        Some(Complex::new(Integer::new(5), Integer::new(0))),
        Complex::<Integer>::from_literal("5")
    );
    assert_eq!(None, Complex::<Integer>::from_literal("1-"));
    assert_eq!(None, Complex::<Integer>::from_literal("1.5+i"));
}
