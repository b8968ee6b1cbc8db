//! Univariate polynomials over a numeric domain, stored sparsely by exponent.
//!
//! A [`Polynomial`] holds its coefficients by exponent and stores no zero
//! coefficient. It can be made from a dense sequence of coefficients or from
//! text, evaluated, derived, added, subtracted, multiplied and divided with
//! remainder, and written as text in several formats.
//!
//! What the operations do is stated over the model of a polynomial, a map
//! from exponents to the values of the coefficients, and proved. The
//! coefficients come from a domain: a type that implements the traits of
//! [`algebra`], and with them proves the laws of a ring or a field for its
//! values. The domains at hand are the integers and the rational numbers of
//! any size, and the complex numbers over any of these.

pub mod algebra;
pub mod complex;
pub mod decimal;
pub mod integer;
pub mod polynomial;
pub mod rational;
pub mod text;

pub use complex::Complex;
pub use integer::Integer;
pub use polynomial::display::PolynomialFormat;
pub use polynomial::Polynomial;
pub use rational::Rational;
