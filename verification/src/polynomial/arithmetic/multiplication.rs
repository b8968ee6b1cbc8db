use super::super::laws;
use super::super::model;
use super::super::{among_first, lemma_among_first_step, Polynomial};
use crate::algebra;
use crate::algebra::{Domain, Ring};
use vstd::prelude::*;
use vstd::std_specs::ops::MulSpecImpl;

verus! {

/// The exponent below which the rows of a product have been added when the
/// first `a` of the ascending exponents of the left operand are done.
pub open spec fn row_bound(exponents: Seq<u32>, a: int) -> nat {
    if 0 <= a < exponents.len() {
        exponents[a] as nat
    } else {
        model::exponent_bound()
    }
}

/// The product of two polynomials: every term of the one multiplied with
/// every term of the other, and the products added up by exponent.
pub(crate) fn multiply<T: Ring>(poly1: &Polynomial<T>, poly2: &Polynomial<T>) -> (r: Polynomial<T>)
    requires
        poly1.well_formed(),
        poly2.well_formed(),
        model::product_fits::<T>(poly1@, poly2@),
    ensures
        r.well_formed(),
        r@ == model::product::<T>(poly1@, poly2@),
{
    let mut poly = Polynomial::zero();
    let exponents = poly1.exponents();
    let other_exponents = poly2.exponents();
    let mut a: usize = 0;
    proof {
        poly1.lemma_view_sparse();
        poly2.lemma_view_sparse();
        assert forall|k: nat|
            model::coefficient::<T>(poly@, k) == model::convolution::<T>(
                poly1@,
                poly2@,
                k,
                row_bound(exponents@, 0),
            ) by {
            assert forall|i: nat| 0 <= i < row_bound(exponents@, 0) implies i > k
                || !poly1@.contains_key(i) by {
                if poly1@.contains_key(i) {
                    poly1.lemma_between_exponents(exponents@, -1, i);
                }
            }
            laws::lemma_convolution_extends::<T>(poly1@, poly2@, k, 0, row_bound(exponents@, 0));
        }
    }
    while a < exponents.len()
        invariant
            a <= exponents.len(),
            poly.well_formed(),
            poly1.well_formed(),
            poly2.well_formed(),
            model::product_fits::<T>(poly1@, poly2@),
            model::bounded::<T>(poly1@),
            forall|a: int, b: int| 0 <= a < b < exponents.len() ==> exponents[a] < exponents[b],
            forall|k: u32| poly1.terms().contains_key(k) <==> exponents@.contains(k),
            forall|a: int, b: int|
                0 <= a < b < other_exponents.len() ==> other_exponents[a] < other_exponents[b],
            forall|k: u32| poly2.terms().contains_key(k) <==> other_exponents@.contains(k),
            forall|k: nat|
                #![trigger model::coefficient::<T>(poly@, k)]
                model::coefficient::<T>(poly@, k) == model::convolution::<T>(
                    poly1@,
                    poly2@,
                    k,
                    row_bound(exponents@, a as int),
                ),
        decreases exponents.len() - a,
    {
        let power = exponents[a];
        assert(exponents@.contains(power));
        let coefficient = poly1.get_coefficient_at(power);
        let ghost row = power as nat;
        let mut b: usize = 0;
        proof {
            assert forall|k: nat|
                model::coefficient::<T>(poly@, k) == T::sum(
                    model::convolution::<T>(poly1@, poly2@, k, row),
                    T::zero_value(),
                ) by {
                T::law_sum_zero(model::convolution::<T>(poly1@, poly2@, k, row));
            }
        }
        while b < other_exponents.len()
            invariant
                b <= other_exponents.len(),
                a < exponents.len(),
                power == exponents[a as int],
                row == power,
                poly1@.contains_key(row),
                coefficient.well_formed(),
                coefficient.value() == model::coefficient::<T>(poly1@, row),
                poly.well_formed(),
                poly1.well_formed(),
                poly2.well_formed(),
                model::product_fits::<T>(poly1@, poly2@),
                forall|a: int, b: int|
                    0 <= a < b < other_exponents.len() ==> other_exponents[a] < other_exponents[b],
                forall|k: u32| poly2.terms().contains_key(k) <==> other_exponents@.contains(k),
                forall|k: nat|
                    #![trigger model::coefficient::<T>(poly@, k)]
                    model::coefficient::<T>(poly@, k) == T::sum(
                        model::convolution::<T>(poly1@, poly2@, k, row),
                        if row <= k && among_first(other_exponents@, b as int, (k - row) as nat) {
                            T::product(
                                model::coefficient::<T>(poly1@, row),
                                model::coefficient::<T>(poly2@, (k - row) as nat),
                            )
                        } else {
                            T::zero_value()
                        },
                    ),
            decreases other_exponents.len() - b,
        {
            let other_power = other_exponents[b];
            assert(other_exponents@.contains(other_power));
            assert(poly2@.contains_key(other_power as nat));
            let other_coefficient = poly2.get_coefficient_at(other_power);
            let ghost before = poly@;
            poly.add_coefficient_at(power + other_power, coefficient.times(&other_coefficient));
            proof {
                assert forall|k: nat|
                    #![trigger model::coefficient::<T>(poly@, k)]
                    model::coefficient::<T>(poly@, k) == T::sum(
                        model::convolution::<T>(poly1@, poly2@, k, row),
                        if row <= k && among_first(other_exponents@, b + 1, (k - row) as nat) {
                            T::product(
                                model::coefficient::<T>(poly1@, row),
                                model::coefficient::<T>(poly2@, (k - row) as nat),
                            )
                        } else {
                            T::zero_value()
                        },
                    ) by {
                    assert(model::coefficient::<T>(before, k) == T::sum(
                        model::convolution::<T>(poly1@, poly2@, k, row),
                        if row <= k && among_first(other_exponents@, b as int, (k - row) as nat) {
                            T::product(
                                model::coefficient::<T>(poly1@, row),
                                model::coefficient::<T>(poly2@, (k - row) as nat),
                            )
                        } else {
                            T::zero_value()
                        },
                    ));
                    if row <= k {
                        lemma_among_first_step(other_exponents@, b as int, (k - row) as nat);
                    }
                    if k == row + other_power {
                        T::law_sum_zero(model::convolution::<T>(poly1@, poly2@, k, row));
                        T::law_sum_zero(model::coefficient::<T>(before, k));
                    }
                }
            }
            b += 1;
        }
        proof {
            assert forall|k: nat|
                #![trigger model::coefficient::<T>(poly@, k)]
                model::coefficient::<T>(poly@, k) == model::convolution::<T>(
                    poly1@,
                    poly2@,
                    k,
                    row_bound(exponents@, a + 1),
                ) by {
                if row <= k {
                    poly2.lemma_stored_among(other_exponents@, (k - row) as nat);
                }
                laws::lemma_convolution_row::<T>(poly1@, poly2@, k, row);
                assert forall|i: nat| row + 1 <= i < row_bound(exponents@, a + 1) implies i > k
                    || !poly1@.contains_key(i) by {
                    if poly1@.contains_key(i) {
                        poly1.lemma_between_exponents(exponents@, a as int, i);
                    }
                }
                laws::lemma_convolution_extends::<T>(
                    poly1@,
                    poly2@,
                    k,
                    row + 1,
                    row_bound(exponents@, a + 1),
                );
            }
        }
        a += 1;
    }
    proof {
        poly.lemma_view_sparse();
        let f = |k: nat| model::convolution::<T>(poly1@, poly2@, k, k + 1);
        assert forall|k: nat| model::coefficient::<T>(poly@, k) == #[trigger] f(k) by {
            if k + 1 <= model::exponent_bound() {
                laws::lemma_convolution_extends::<T>(
                    poly1@,
                    poly2@,
                    k,
                    k + 1,
                    model::exponent_bound(),
                );
            } else {
                laws::lemma_convolution_extends::<T>(
                    poly1@,
                    poly2@,
                    k,
                    model::exponent_bound(),
                    k + 1,
                );
            }
        }
        model::lemma_from_function_unique::<T>(poly@, f);
    }
    poly
}

/// Multiplies every coefficient of `poly` by `scalar`.
pub(crate) fn multiply_in_place_by_scalar<T: Ring>(poly: &mut Polynomial<T>, scalar: T)
    requires
        old(poly).well_formed(),
        scalar.well_formed(),
    ensures
        final(poly).well_formed(),
        final(poly)@ == model::scaled::<T>(old(poly)@, scalar.value()),
{
    // Prevent zeros from being present in the map
    if scalar.is_zero() {
        *poly = Polynomial::zero();
        proof {
            let f = |k: nat| T::product(model::coefficient::<T>(old(poly)@, k), scalar.value());
            assert forall|k: nat| model::coefficient::<T>(poly@, k) == #[trigger] f(k) by {
                algebra::lemma_product_zero::<T>(model::coefficient::<T>(old(poly)@, k));
            }
            model::lemma_from_function_unique::<T>(poly@, f);
        }
        return ;
    }
    let exponents = poly.exponents();
    let mut i: usize = 0;
    while i < exponents.len()
        invariant
            i <= exponents.len(),
            poly.well_formed(),
            scalar.well_formed(),
            forall|a: int, b: int| 0 <= a < b < exponents.len() ==> exponents[a] < exponents[b],
            forall|k: u32| old(poly).terms().contains_key(k) <==> exponents@.contains(k),
            forall|k: nat|
                #![trigger model::coefficient::<T>(poly@, k)]
                model::coefficient::<T>(poly@, k) == if among_first(exponents@, i as int, k) {
                    T::product(model::coefficient::<T>(old(poly)@, k), scalar.value())
                } else {
                    model::coefficient::<T>(old(poly)@, k)
                },
        decreases exponents.len() - i,
    {
        let power = exponents[i];
        let ghost before = poly@;
        poly.mul_coefficient_at(power, scalar.duplicate());
        proof {
            assert forall|k: nat|
                #![trigger model::coefficient::<T>(poly@, k)]
                model::coefficient::<T>(poly@, k) == if among_first(exponents@, i + 1, k) {
                    T::product(model::coefficient::<T>(old(poly)@, k), scalar.value())
                } else {
                    model::coefficient::<T>(old(poly)@, k)
                } by {
                lemma_among_first_step(exponents@, i as int, k);
                assert(model::coefficient::<T>(before, k) == if among_first(
                    exponents@,
                    i as int,
                    k,
                ) {
                    T::product(model::coefficient::<T>(old(poly)@, k), scalar.value())
                } else {
                    model::coefficient::<T>(old(poly)@, k)
                });
            }
        }
        i += 1;
    }
    proof {
        poly.lemma_view_sparse();
        let f = |k: nat| T::product(model::coefficient::<T>(old(poly)@, k), scalar.value());
        assert forall|k: nat| model::coefficient::<T>(poly@, k) == #[trigger] f(k) by {
            old(poly).lemma_stored_among(exponents@, k);
            algebra::lemma_product_zero::<T>(scalar.value());
        }
        model::lemma_from_function_unique::<T>(poly@, f);
    }
}

impl<T: Ring> core::ops::Mul<&Polynomial<T>> for Polynomial<T> {
    type Output = Polynomial<T>;

    /// The product of two polynomials.
    fn mul(self, rhs: &Polynomial<T>) -> (r: Polynomial<T>)
        ensures
            r.well_formed(),
            r@ == model::product::<T>(self@, rhs@),
    {
        multiply(&self, rhs)
    }
}

/// What `*` asks of its operands. Its result is stated by `mul` itself, over
/// the views: no specification function can build a polynomial.
impl<T: Ring> MulSpecImpl<&Polynomial<T>> for Polynomial<T> {
    open spec fn obeys_mul_spec() -> bool {
        false
    }

    open spec fn mul_req(self, rhs: &Polynomial<T>) -> bool {
        self.well_formed() && rhs.well_formed() && model::product_fits::<T>(self@, rhs@)
    }

    open spec fn mul_spec(self, rhs: &Polynomial<T>) -> Polynomial<T> {
        self
    }
}

impl<T: Ring> core::ops::Mul<T> for Polynomial<T> {
    type Output = Polynomial<T>;

    /// The polynomial with every coefficient multiplied by a scalar.
    fn mul(self, rhs: T) -> (r: Polynomial<T>)
        ensures
            r.well_formed(),
            r@ == model::scaled::<T>(self@, rhs.value()),
    {
        let mut product = self;
        multiply_in_place_by_scalar(&mut product, rhs);
        product
    }
}

/// What `*` asks of a polynomial and a scalar. Its result is stated by `mul`
/// itself, over the views.
impl<T: Ring> MulSpecImpl<T> for Polynomial<T> {
    open spec fn obeys_mul_spec() -> bool {
        false
    }

    open spec fn mul_req(self, rhs: T) -> bool {
        self.well_formed() && rhs.well_formed()
    }

    open spec fn mul_spec(self, rhs: T) -> Polynomial<T> {
        self
    }
}

impl<T: Ring> core::ops::MulAssign<&Polynomial<T>> for Polynomial<T> {
    /// Multiplies this polynomial by another.
    fn mul_assign(&mut self, rhs: &Polynomial<T>)
        requires
            old(self).well_formed(),
            rhs.well_formed(),
            model::product_fits::<T>(old(self)@, rhs@),
        ensures
            final(self).well_formed(),
            final(self)@ == model::product::<T>(old(self)@, rhs@),
    {
        *self = multiply(self, rhs);
    }
}

impl<T: Ring> core::ops::MulAssign<T> for Polynomial<T> {
    /// Multiplies every coefficient by a scalar.
    fn mul_assign(&mut self, rhs: T)
        requires
            old(self).well_formed(),
            rhs.well_formed(),
        ensures
            final(self).well_formed(),
            final(self)@ == model::scaled::<T>(old(self)@, rhs.value()),
    {
        multiply_in_place_by_scalar(self, rhs);
    }
}

} // verus!
