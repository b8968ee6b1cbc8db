use super::super::laws;
use super::super::model;
use super::super::{among_first, lemma_among_first_step, Polynomial};
use super::addition::add_in_place;
use super::multiplication::multiply;
use super::subtraction::subtract_in_place;
use crate::algebra;
use crate::algebra::{Domain, Field, Ring};
use vstd::prelude::*;
use vstd::std_specs::ops::{DivSpecImpl, RemSpecImpl};

verus! {

/// The quotient and the remainder of a division of polynomials.
pub struct PolynomialDivisionResult<T> {
    pub quotient: Polynomial<T>,
    pub remainder: Polynomial<T>,
}

struct Term<T> {
    coefficient: T,
    power: u32,
}

/// Returns a leading term of a [`Polynomial`] other than zero.
fn leading_term<T: Ring>(poly: &Polynomial<T>) -> (r: Term<T>)
    requires
        poly.well_formed(),
        poly@ != Map::<nat, T::Value>::empty(),
    ensures
        r.coefficient.well_formed(),
        model::is_degree::<T>(poly@, r.power as nat),
        r.coefficient.value() == model::coefficient::<T>(poly@, r.power as nat),
        r.coefficient.value() != T::zero_value(),
{
    proof {
        poly.lemma_view_sparse();
    }
    let degree = poly.degree().unwrap();
    Term { coefficient: poly.get_coefficient_at(degree), power: degree }
}

/// Returns a quotient of two terms as a [`Polynomial`].
fn divide_terms<T: Field>(term1: Term<T>, term2: Term<T>) -> (r: Polynomial<T>)
    requires
        term1.coefficient.well_formed(),
        term2.coefficient.well_formed(),
        term2.coefficient.value() != T::zero_value(),
        term1.power >= term2.power,
    ensures
        r.well_formed(),
        r@ == model::single_term::<T>(
            (term1.power - term2.power) as nat,
            T::quotient(term1.coefficient.value(), term2.coefficient.value()),
        ),
{
    let mut quotient = Polynomial::zero();
    quotient.set_coefficient_at(
        term1.power - term2.power,
        term1.coefficient.divided_by(&term2.coefficient),
    );
    quotient
}

/// Whether a remainder of the degree `current` can still be divided by a
/// polynomial of the degree `degree`.
fn reaches(current: Option<u32>, degree: u32) -> (b: bool)
    ensures
        b == (current matches Some(d) && d >= degree),
{
    match current {
        Some(d) => d >= degree,
        None => false,
    }
}

/// Long division of polynomials.
///
/// After a function invocation, a quotient is returned and the numerator becomes a
/// remainder of the division.
pub(crate) fn divide_in_place<T: Field>(
    numerator: &mut Polynomial<T>,
    denominator: &Polynomial<T>,
) -> (quotient: Polynomial<T>)
    requires
        old(numerator).well_formed(),
        denominator.well_formed(),
        denominator@ != Map::<nat, T::Value>::empty(),
    ensures
        quotient.well_formed(),
        final(numerator).well_formed(),
        model::is_division::<T>(old(numerator)@, denominator@, quotient@, final(numerator)@),
{
    let mut quotient = Polynomial::zero();
    let divisor = leading_term(denominator);
    let mut current = numerator.degree();
    proof {
        old(numerator).lemma_view_sparse();
        denominator.lemma_view_sparse();
        assert forall|k: nat|
            model::coefficient::<T>(old(numerator)@, k) == T::sum(
                model::convolution::<T>(quotient@, denominator@, k, k + 1),
                model::coefficient::<T>(numerator@, k),
            ) by {
            laws::lemma_convolution_extends::<T>(quotient@, denominator@, k, 0, k + 1);
            algebra::lemma_zero_sum::<T>(model::coefficient::<T>(numerator@, k));
        }
    }
    while reaches(current, divisor.power)
        invariant
            quotient.well_formed(),
            numerator.well_formed(),
            denominator.well_formed(),
            divisor.coefficient.well_formed(),
            divisor.coefficient.value() != T::zero_value(),
            divisor.coefficient.value() == model::coefficient::<T>(
                denominator@,
                divisor.power as nat,
            ),
            model::is_degree::<T>(denominator@, divisor.power as nat),
            match current {
                Some(d) => model::is_degree::<T>(numerator@, d as nat),
                None => numerator@ == Map::<nat, T::Value>::empty(),
            },
            forall|k: nat|
                #![trigger model::coefficient::<T>(numerator@, k)]
                model::coefficient::<T>(old(numerator)@, k) == T::sum(
                    model::convolution::<T>(quotient@, denominator@, k, k + 1),
                    model::coefficient::<T>(numerator@, k),
                ),
        decreases
                (match current {
                    Some(d) => d + 1,
                    None => 0,
                }),
    {
        let ghost before = numerator@;
        let ghost quotient_before = quotient@;
        let leading = leading_term(numerator);
        let ghost top = leading.power as nat;
        let ghost shift = (leading.power - divisor.power) as nat;
        let ghost factor = T::quotient(leading.coefficient.value(), divisor.coefficient.value());
        let next_quotient_term = divide_terms(
            leading,
            Term { coefficient: divisor.coefficient.duplicate(), power: divisor.power },
        );
        add_in_place(&mut quotient, &next_quotient_term);
        proof {
            assert forall|i: nat, j: nat|
                next_quotient_term@.contains_key(i) && denominator@.contains_key(
                    j,
                ) implies i + j < model::exponent_bound() by {
                assert(i == shift);
                assert(j <= divisor.power);
            }
        }
        let subtrahend = multiply(&next_quotient_term, denominator);
        subtract_in_place(numerator, &subtrahend);
        proof {
            let term = next_quotient_term@;
            model::lemma_from_function_coefficients::<T>(
                |k: nat|
                    T::sum(
                        model::coefficient::<T>(quotient_before, k),
                        model::coefficient::<T>(term, k),
                    ),
            );
            model::lemma_from_function_coefficients::<T>(
                |k: nat| model::convolution::<T>(term, denominator@, k, k + 1),
            );
            model::lemma_from_function_coefficients::<T>(
                |k: nat|
                    algebra::difference::<T>(
                        model::coefficient::<T>(before, k),
                        model::coefficient::<T>(subtrahend@, k),
                    ),
            );
            assert forall|k: nat|
                #![trigger model::coefficient::<T>(numerator@, k)]
                model::coefficient::<T>(old(numerator)@, k) == T::sum(
                    model::convolution::<T>(quotient@, denominator@, k, k + 1),
                    model::coefficient::<T>(numerator@, k),
                ) by {
                assert(model::coefficient::<T>(old(numerator)@, k) == T::sum(
                    model::convolution::<T>(quotient_before, denominator@, k, k + 1),
                    model::coefficient::<T>(before, k),
                ));
                assert(model::coefficient::<T>(subtrahend@, k) == model::convolution::<T>(
                    term,
                    denominator@,
                    k,
                    k + 1,
                ));
                assert(model::coefficient::<T>(numerator@, k) == algebra::difference::<T>(
                    model::coefficient::<T>(before, k),
                    model::coefficient::<T>(subtrahend@, k),
                ));
                assert forall|i: nat|
                    #[trigger] model::coefficient::<T>(quotient@, i) == T::sum(
                        model::coefficient::<T>(quotient_before, i),
                        model::coefficient::<T>(term, i),
                    ) by {}
                laws::lemma_convolution_adds::<T>(
                    quotient_before,
                    term,
                    quotient@,
                    denominator@,
                    k,
                    k + 1,
                );
                laws::lemma_sum_restores::<T>(
                    model::convolution::<T>(quotient_before, denominator@, k, k + 1),
                    model::convolution::<T>(term, denominator@, k, k + 1),
                    model::coefficient::<T>(before, k),
                );
            }
            // the leading term of the remainder is cancelled, and nothing is
            // added above it
            assert forall|k: nat| k >= top implies !numerator@.contains_key(k) by {
                laws::lemma_convolution_single_term::<T>(shift, factor, denominator@, k, k + 1);
                assert(model::coefficient::<T>(numerator@, k) == algebra::difference::<T>(
                    model::coefficient::<T>(before, k),
                    model::coefficient::<T>(subtrahend@, k),
                ));
                assert(model::coefficient::<T>(subtrahend@, k) == model::convolution::<T>(
                    term,
                    denominator@,
                    k,
                    k + 1,
                ));
                if k == top {
                    T::law_quotient(leading.coefficient.value(), divisor.coefficient.value());
                    algebra::lemma_difference_basics::<T>(model::coefficient::<T>(before, k));
                } else {
                    assert(!denominator@.contains_key((k - shift) as nat));
                    algebra::lemma_product_zero::<T>(factor);
                    algebra::lemma_difference_basics::<T>(T::zero_value());
                }
            }
        }
        current = numerator.degree();
    }
    proof {
        numerator.lemma_view_sparse();
        model::lemma_from_function_coefficients::<T>(
            |k: nat| model::convolution::<T>(quotient@, denominator@, k, k + 1),
        );
        let f = |k: nat|
            T::sum(
                model::coefficient::<T>(model::product::<T>(quotient@, denominator@), k),
                model::coefficient::<T>(numerator@, k),
            );
        assert forall|k: nat| model::coefficient::<T>(old(numerator)@, k) == #[trigger] f(k) by {
            assert(model::coefficient::<T>(old(numerator)@, k) == T::sum(
                model::convolution::<T>(quotient@, denominator@, k, k + 1),
                model::coefficient::<T>(numerator@, k),
            ));
        }
        model::lemma_from_function_unique::<T>(old(numerator)@, f);
    }
    quotient
}

/// Divides every coefficient of `poly` by `scalar`, which is not zero.
pub(crate) fn divide_by_scalar_in_place<T: Field>(poly: &mut Polynomial<T>, scalar: T)
    requires
        old(poly).well_formed(),
        scalar.well_formed(),
        scalar.value() != T::zero_value(),
    ensures
        final(poly).well_formed(),
        final(poly)@ == model::divided::<T>(old(poly)@, scalar.value()),
{
    let exponents = poly.exponents();
    let mut i: usize = 0;
    while i < exponents.len()
        invariant
            i <= exponents.len(),
            poly.well_formed(),
            scalar.well_formed(),
            scalar.value() != T::zero_value(),
            forall|a: int, b: int| 0 <= a < b < exponents.len() ==> exponents[a] < exponents[b],
            forall|k: u32| old(poly).terms().contains_key(k) <==> exponents@.contains(k),
            forall|k: nat|
                #![trigger model::coefficient::<T>(poly@, k)]
                model::coefficient::<T>(poly@, k) == if among_first(exponents@, i as int, k) {
                    T::quotient(model::coefficient::<T>(old(poly)@, k), scalar.value())
                } else {
                    model::coefficient::<T>(old(poly)@, k)
                },
        decreases exponents.len() - i,
    {
        let power = exponents[i];
        let ghost before = poly@;
        poly.div_coefficient_at(power, scalar.duplicate());
        proof {
            assert forall|k: nat|
                #![trigger model::coefficient::<T>(poly@, k)]
                model::coefficient::<T>(poly@, k) == if among_first(exponents@, i + 1, k) {
                    T::quotient(model::coefficient::<T>(old(poly)@, k), scalar.value())
                } else {
                    model::coefficient::<T>(old(poly)@, k)
                } by {
                lemma_among_first_step(exponents@, i as int, k);
                assert(model::coefficient::<T>(before, k) == if among_first(
                    exponents@,
                    i as int,
                    k,
                ) {
                    T::quotient(model::coefficient::<T>(old(poly)@, k), scalar.value())
                } else {
                    model::coefficient::<T>(old(poly)@, k)
                });
            }
        }
        i += 1;
    }
    proof {
        poly.lemma_view_sparse();
        let f = |k: nat| T::quotient(model::coefficient::<T>(old(poly)@, k), scalar.value());
        assert forall|k: nat| model::coefficient::<T>(poly@, k) == #[trigger] f(k) by {
            old(poly).lemma_stored_among(exponents@, k);
            laws::lemma_quotient_of_zero::<T>(scalar.value());
        }
        model::lemma_from_function_unique::<T>(poly@, f);
    }
}

impl<T: Field> core::ops::Div<&Polynomial<T>> for Polynomial<T> {
    type Output = PolynomialDivisionResult<T>;

    /// The quotient and the remainder of the division by a polynomial other
    /// than zero.
    fn div(self, rhs: &Polynomial<T>) -> (r: PolynomialDivisionResult<T>)
        ensures
            r.quotient.well_formed(),
            r.remainder.well_formed(),
            model::is_division::<T>(self@, rhs@, r.quotient@, r.remainder@),
    {
        let mut remainder = self;
        let quotient = divide_in_place(&mut remainder, rhs);
        PolynomialDivisionResult { quotient, remainder }
    }
}

/// What `/` asks of its operands. Its result is stated by `div` itself, over
/// the views: no specification function can build a polynomial.
impl<T: Field> DivSpecImpl<&Polynomial<T>> for Polynomial<T> {
    open spec fn obeys_div_spec() -> bool {
        false
    }

    open spec fn div_req(self, rhs: &Polynomial<T>) -> bool {
        self.well_formed() && rhs.well_formed() && rhs@ != Map::<nat, T::Value>::empty()
    }

    open spec fn div_spec(self, rhs: &Polynomial<T>) -> PolynomialDivisionResult<T> {
        PolynomialDivisionResult { quotient: self, remainder: self }
    }
}

impl<T: Field> core::ops::Div<T> for Polynomial<T> {
    type Output = Polynomial<T>;

    /// The polynomial with every coefficient divided by a scalar other than
    /// zero.
    fn div(self, rhs: T) -> (r: Polynomial<T>)
        ensures
            r.well_formed(),
            r@ == model::divided::<T>(self@, rhs.value()),
    {
        let mut quotient = self;
        divide_by_scalar_in_place(&mut quotient, rhs);
        quotient
    }
}

/// What `/` asks of a polynomial and a scalar. Its result is stated by `div`
/// itself, over the views.
impl<T: Field> DivSpecImpl<T> for Polynomial<T> {
    open spec fn obeys_div_spec() -> bool {
        false
    }

    open spec fn div_req(self, rhs: T) -> bool {
        self.well_formed() && rhs.well_formed() && rhs.value() != T::zero_value()
    }

    open spec fn div_spec(self, rhs: T) -> Polynomial<T> {
        self
    }
}

impl<T: Field> core::ops::DivAssign<&Polynomial<T>> for Polynomial<T> {
    /// Replaces this polynomial by its quotient by another, which is not
    /// zero.
    fn div_assign(&mut self, rhs: &Polynomial<T>)
        requires
            old(self).well_formed(),
            rhs.well_formed(),
            rhs@ != Map::<nat, T::Value>::empty(),
        ensures
            final(self).well_formed(),
            exists|remainder: Map<nat, T::Value>|
                model::sparse::<T>(remainder) && #[trigger] model::is_division::<T>(
                    old(self)@,
                    rhs@,
                    final(self)@,
                    remainder,
                ),
    {
        let quotient = divide_in_place(self, rhs);
        proof {
            self.lemma_view_sparse();
            assert(model::is_division::<T>(old(self)@, rhs@, quotient@, self@));
        }
        *self = quotient;
    }
}

impl<T: Field> core::ops::DivAssign<T> for Polynomial<T> {
    /// Divides every coefficient by a scalar other than zero.
    fn div_assign(&mut self, rhs: T)
        requires
            old(self).well_formed(),
            rhs.well_formed(),
            rhs.value() != T::zero_value(),
        ensures
            final(self).well_formed(),
            final(self)@ == model::divided::<T>(old(self)@, rhs.value()),
    {
        divide_by_scalar_in_place(self, rhs);
    }
}

impl<T: Field> core::ops::Rem<&Polynomial<T>> for Polynomial<T> {
    type Output = Polynomial<T>;

    /// The remainder of the division by a polynomial other than zero.
    fn rem(self, rhs: &Polynomial<T>) -> (r: Polynomial<T>)
        ensures
            r.well_formed(),
            exists|quotient: Map<nat, T::Value>|
                model::sparse::<T>(quotient) && #[trigger] model::is_division::<T>(
                    self@,
                    rhs@,
                    quotient,
                    r@,
                ),
    {
        let mut remainder = self;
        let quotient = divide_in_place(&mut remainder, rhs);
        proof {
            quotient.lemma_view_sparse();
            assert(model::is_division::<T>(self@, rhs@, quotient@, remainder@));
        }
        remainder
    }
}

/// What `%` asks of its operands. Its result is stated by `rem` itself, over
/// the views: no specification function can build a polynomial.
impl<T: Field> RemSpecImpl<&Polynomial<T>> for Polynomial<T> {
    open spec fn obeys_rem_spec() -> bool {
        false
    }

    open spec fn rem_req(self, rhs: &Polynomial<T>) -> bool {
        self.well_formed() && rhs.well_formed() && rhs@ != Map::<nat, T::Value>::empty()
    }

    open spec fn rem_spec(self, rhs: &Polynomial<T>) -> Polynomial<T> {
        self
    }
}

impl<T: Field> core::ops::RemAssign<&Polynomial<T>> for Polynomial<T> {
    /// Replaces this polynomial by its remainder by another, which is not
    /// zero.
    fn rem_assign(&mut self, rhs: &Polynomial<T>)
        requires
            old(self).well_formed(),
            rhs.well_formed(),
            rhs@ != Map::<nat, T::Value>::empty(),
        ensures
            final(self).well_formed(),
            exists|quotient: Map<nat, T::Value>|
                model::sparse::<T>(quotient) && #[trigger] model::is_division::<T>(
                    old(self)@,
                    rhs@,
                    quotient,
                    final(self)@,
                ),
    {
        let quotient = divide_in_place(self, rhs);
        proof {
            quotient.lemma_view_sparse();
            assert(model::is_division::<T>(old(self)@, rhs@, quotient@, self@));
        }
    }
}

} // verus!
