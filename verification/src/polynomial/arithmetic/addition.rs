use super::super::model;
use super::super::{among_first, Polynomial};
use crate::algebra::{Domain, Ring};
use vstd::prelude::*;
use vstd::std_specs::ops::AddSpecImpl;

verus! {

/// Adds `poly2` to `poly1`, term by term.
pub(crate) fn add_in_place<T: Ring>(poly1: &mut Polynomial<T>, poly2: &Polynomial<T>)
    requires
        old(poly1).well_formed(),
        poly2.well_formed(),
    ensures
        final(poly1).well_formed(),
        final(poly1)@ == model::sum::<T>(old(poly1)@, poly2@),
{
    let exponents = poly2.exponents();
    let mut i: usize = 0;
    while i < exponents.len()
        invariant
            i <= exponents.len(),
            poly1.well_formed(),
            poly2.well_formed(),
            forall|a: int, b: int| 0 <= a < b < exponents.len() ==> exponents[a] < exponents[b],
            forall|k: u32| poly2.terms().contains_key(k) <==> exponents@.contains(k),
            forall|k: nat|
                #![trigger model::coefficient::<T>(poly1@, k)]
                model::coefficient::<T>(poly1@, k) == if among_first(exponents@, i as int, k) {
                    T::sum(
                        model::coefficient::<T>(old(poly1)@, k),
                        model::coefficient::<T>(poly2@, k),
                    )
                } else {
                    model::coefficient::<T>(old(poly1)@, k)
                },
        decreases exponents.len() - i,
    {
        let power = exponents[i];
        let ghost before = poly1@;
        assert(exponents@.contains(power));
        poly1.add_coefficient_at(power, poly2.get_coefficient_at(power));
        proof {
            assert forall|k: nat|
                #![trigger model::coefficient::<T>(poly1@, k)]
                model::coefficient::<T>(poly1@, k) == if among_first(exponents@, i + 1, k) {
                    T::sum(
                        model::coefficient::<T>(old(poly1)@, k),
                        model::coefficient::<T>(poly2@, k),
                    )
                } else {
                    model::coefficient::<T>(old(poly1)@, k)
                } by {
                super::super::lemma_among_first_step(exponents@, i as int, k);
                assert(model::coefficient::<T>(before, k) == if among_first(
                    exponents@,
                    i as int,
                    k,
                ) {
                    T::sum(
                        model::coefficient::<T>(old(poly1)@, k),
                        model::coefficient::<T>(poly2@, k),
                    )
                } else {
                    model::coefficient::<T>(old(poly1)@, k)
                });
            }
        }
        i += 1;
    }
    proof {
        poly1.lemma_view_sparse();
        let f = |k: nat|
            T::sum(model::coefficient::<T>(old(poly1)@, k), model::coefficient::<T>(poly2@, k));
        assert forall|k: nat| model::coefficient::<T>(poly1@, k) == #[trigger] f(k) by {
            poly2.lemma_stored_among(exponents@, k);
            T::law_sum_zero(model::coefficient::<T>(old(poly1)@, k));
        }
        model::lemma_from_function_unique::<T>(poly1@, f);
    }
}

impl<T: Ring> core::ops::Add<&Polynomial<T>> for Polynomial<T> {
    type Output = Polynomial<T>;

    /// The sum of two polynomials.
    fn add(self, rhs: &Polynomial<T>) -> (r: Polynomial<T>)
        ensures
            r.well_formed(),
            r@ == model::sum::<T>(self@, rhs@),
    {
        let mut sum = self;
        add_in_place(&mut sum, rhs);
        sum
    }
}

/// What `+` asks of its operands. Its result is stated by `add` itself, over
/// the views: no specification function can build a polynomial.
impl<T: Ring> AddSpecImpl<&Polynomial<T>> for Polynomial<T> {
    open spec fn obeys_add_spec() -> bool {
        false
    }

    open spec fn add_req(self, rhs: &Polynomial<T>) -> bool {
        self.well_formed() && rhs.well_formed()
    }

    open spec fn add_spec(self, rhs: &Polynomial<T>) -> Polynomial<T> {
        self
    }
}

impl<T: Ring> core::ops::Add<T> for Polynomial<T> {
    type Output = Polynomial<T>;

    /// The polynomial with a scalar added to its constant term.
    fn add(self, rhs: T) -> (r: Polynomial<T>)
        ensures
            r.well_formed(),
            r@ == model::with_coefficient::<T>(
                self@,
                0,
                T::sum(model::coefficient::<T>(self@, 0), rhs.value()),
            ),
    {
        let mut sum = self;
        sum.add_coefficient_at(0, rhs);
        sum
    }
}

/// What `+` asks of a polynomial and a scalar. Its result is stated by `add`
/// itself, over the views.
impl<T: Ring> AddSpecImpl<T> for Polynomial<T> {
    open spec fn obeys_add_spec() -> bool {
        false
    }

    open spec fn add_req(self, rhs: T) -> bool {
        self.well_formed() && rhs.well_formed()
    }

    open spec fn add_spec(self, rhs: T) -> Polynomial<T> {
        self
    }
}

impl<T: Ring> core::ops::AddAssign<&Polynomial<T>> for Polynomial<T> {
    /// Adds a polynomial to this one.
    fn add_assign(&mut self, rhs: &Polynomial<T>)
        requires
            old(self).well_formed(),
            rhs.well_formed(),
        ensures
            final(self).well_formed(),
            final(self)@ == model::sum::<T>(old(self)@, rhs@),
    {
        add_in_place(self, rhs);
    }
}

impl<T: Ring> core::ops::AddAssign<T> for Polynomial<T> {
    /// Adds a scalar to the constant term.
    fn add_assign(&mut self, rhs: T)
        requires
            old(self).well_formed(),
            rhs.well_formed(),
        ensures
            final(self).well_formed(),
            final(self)@ == model::with_coefficient::<T>(
                old(self)@,
                0,
                T::sum(model::coefficient::<T>(old(self)@, 0), rhs.value()),
            ),
    {
        self.add_coefficient_at(0, rhs);
    }
}

} // verus!
