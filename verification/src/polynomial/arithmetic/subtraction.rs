use super::super::model;
use super::super::{among_first, Polynomial};
use crate::algebra;
use crate::algebra::{Domain, Ring};
use vstd::prelude::*;
use vstd::std_specs::ops::SubSpecImpl;

verus! {

/// Subtracts `poly2` from `poly1`, term by term.
pub(crate) fn subtract_in_place<T: Ring>(poly1: &mut Polynomial<T>, poly2: &Polynomial<T>)
    requires
        old(poly1).well_formed(),
        poly2.well_formed(),
    ensures
        final(poly1).well_formed(),
        final(poly1)@ == model::difference::<T>(old(poly1)@, poly2@),
{
    let exponents = poly2.exponents();
    let mut i: usize = 0;
    while i < exponents.len()
        invariant
            i <= exponents.len(),
            poly1.well_formed(),
            poly2.well_formed(),
            forall|a: int, b: int| 0 <= a < b < exponents.len() ==> exponents[a] < exponents[b],
            forall|k: u32| poly2.terms().contains_key(k) <==> exponents@.contains(k),
            forall|k: nat|
                #![trigger model::coefficient::<T>(poly1@, k)]
                model::coefficient::<T>(poly1@, k) == if among_first(exponents@, i as int, k) {
                    algebra::difference::<T>(
                        model::coefficient::<T>(old(poly1)@, k),
                        model::coefficient::<T>(poly2@, k),
                    )
                } else {
                    model::coefficient::<T>(old(poly1)@, k)
                },
        decreases exponents.len() - i,
    {
        let power = exponents[i];
        let ghost before = poly1@;
        assert(exponents@.contains(power));
        poly1.sub_coefficient_at(power, poly2.get_coefficient_at(power));
        proof {
            assert forall|k: nat|
                #![trigger model::coefficient::<T>(poly1@, k)]
                model::coefficient::<T>(poly1@, k) == if among_first(exponents@, i + 1, k) {
                    algebra::difference::<T>(
                        model::coefficient::<T>(old(poly1)@, k),
                        model::coefficient::<T>(poly2@, k),
                    )
                } else {
                    model::coefficient::<T>(old(poly1)@, k)
                } by {
                super::super::lemma_among_first_step(exponents@, i as int, k);
                assert(model::coefficient::<T>(before, k) == if among_first(
                    exponents@,
                    i as int,
                    k,
                ) {
                    algebra::difference::<T>(
                        model::coefficient::<T>(old(poly1)@, k),
                        model::coefficient::<T>(poly2@, k),
                    )
                } else {
                    model::coefficient::<T>(old(poly1)@, k)
                });
            }
        }
        i += 1;
    }
    proof {
        poly1.lemma_view_sparse();
        let f = |k: nat|
            algebra::difference::<T>(
                model::coefficient::<T>(old(poly1)@, k),
                model::coefficient::<T>(poly2@, k),
            );
        assert forall|k: nat| model::coefficient::<T>(poly1@, k) == #[trigger] f(k) by {
            poly2.lemma_stored_among(exponents@, k);
            algebra::lemma_difference_basics::<T>(model::coefficient::<T>(old(poly1)@, k));
        }
        model::lemma_from_function_unique::<T>(poly1@, f);
    }
}

impl<T: Ring> core::ops::Sub<&Polynomial<T>> for Polynomial<T> {
    type Output = Polynomial<T>;

    /// The difference of two polynomials.
    fn sub(self, rhs: &Polynomial<T>) -> (r: Polynomial<T>)
        ensures
            r.well_formed(),
            r@ == model::difference::<T>(self@, rhs@),
    {
        let mut difference = self;
        subtract_in_place(&mut difference, rhs);
        difference
    }
}

/// What `-` asks of its operands. Its result is stated by `sub` itself, over
/// the views: no specification function can build a polynomial.
impl<T: Ring> SubSpecImpl<&Polynomial<T>> for Polynomial<T> {
    open spec fn obeys_sub_spec() -> bool {
        false
    }

    open spec fn sub_req(self, rhs: &Polynomial<T>) -> bool {
        self.well_formed() && rhs.well_formed()
    }

    open spec fn sub_spec(self, rhs: &Polynomial<T>) -> Polynomial<T> {
        self
    }
}

impl<T: Ring> core::ops::Sub<T> for Polynomial<T> {
    type Output = Polynomial<T>;

    /// The polynomial with a scalar subtracted from its constant term.
    fn sub(self, rhs: T) -> (r: Polynomial<T>)
        ensures
            r.well_formed(),
            r@ == model::with_coefficient::<T>(
                self@,
                0,
                algebra::difference::<T>(model::coefficient::<T>(self@, 0), rhs.value()),
            ),
    {
        let mut difference = self;
        difference.sub_coefficient_at(0, rhs);
        difference
    }
}

/// What `-` asks of a polynomial and a scalar. Its result is stated by `sub`
/// itself, over the views.
impl<T: Ring> SubSpecImpl<T> for Polynomial<T> {
    open spec fn obeys_sub_spec() -> bool {
        false
    }

    open spec fn sub_req(self, rhs: T) -> bool {
        self.well_formed() && rhs.well_formed()
    }

    open spec fn sub_spec(self, rhs: T) -> Polynomial<T> {
        self
    }
}

impl<T: Ring> core::ops::SubAssign<&Polynomial<T>> for Polynomial<T> {
    /// Subtracts a polynomial from this one.
    fn sub_assign(&mut self, rhs: &Polynomial<T>)
        requires
            old(self).well_formed(),
            rhs.well_formed(),
        ensures
            final(self).well_formed(),
            final(self)@ == model::difference::<T>(old(self)@, rhs@),
    {
        subtract_in_place(self, rhs);
    }
}

impl<T: Ring> core::ops::SubAssign<T> for Polynomial<T> {
    /// Subtracts a scalar from the constant term.
    fn sub_assign(&mut self, rhs: T)
        requires
            old(self).well_formed(),
            rhs.well_formed(),
        ensures
            final(self).well_formed(),
            final(self)@ == model::with_coefficient::<T>(
                old(self)@,
                0,
                algebra::difference::<T>(model::coefficient::<T>(old(self)@, 0), rhs.value()),
            ),
    {
        self.sub_coefficient_at(0, rhs);
    }
}

} // verus!
