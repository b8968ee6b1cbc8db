use super::super::model;
use super::super::Polynomial;
use super::multiplication::multiply_in_place_by_scalar;
use crate::algebra;
use crate::algebra::{Domain, Ring};
use vstd::prelude::*;
use vstd::std_specs::ops::NegSpecImpl;

verus! {

impl<T: Ring> core::ops::Neg for Polynomial<T> {
    type Output = Polynomial<T>;

    /// The polynomial with every coefficient negated: the product with `-1`.
    fn neg(self) -> (r: Polynomial<T>)
        ensures
            r.well_formed(),
            r@ == model::negated::<T>(self@),
    {
        let mut negated = self;
        multiply_in_place_by_scalar(&mut negated, T::one().negated());
        proof {
            negated.lemma_view_sparse();
            let minus_one = T::negation(T::one_value());
            model::lemma_from_function_coefficients::<T>(
                |k: nat| T::product(model::coefficient::<T>(self@, k), minus_one),
            );
            let f = |k: nat| T::negation(model::coefficient::<T>(self@, k));
            assert forall|k: nat| model::coefficient::<T>(negated@, k) == #[trigger] f(k) by {
                algebra::lemma_product_minus_one::<T>(model::coefficient::<T>(self@, k));
            }
            model::lemma_from_function_unique::<T>(negated@, f);
        }
        negated
    }
}

/// What `-` asks of its operand. Its result is stated by `neg` itself, over
/// the views: no specification function can build a polynomial.
impl<T: Ring> NegSpecImpl for Polynomial<T> {
    open spec fn obeys_neg_spec() -> bool {
        false
    }

    open spec fn neg_req(self) -> bool {
        self.well_formed()
    }

    open spec fn neg_spec(self) -> Polynomial<T> {
        self
    }
}

} // verus!
