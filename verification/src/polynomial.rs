//! Polynomials, their degree, their value at a point and their derivative.

use crate::algebra;
use crate::algebra::{Domain, Ring};
use std::collections::BTreeMap;
use vstd::prelude::*;
use vstd::std_specs::cmp::OrdSpec;
use vstd::std_specs::iter::IteratorSpec;

pub mod arithmetic;
pub mod coefficients;
pub mod display;
pub mod faithful;
pub mod laws;
pub mod model;
pub mod parsing;
pub mod round_trip;

verus! {

/// A univariate polynomial with coefficients of the domain `T`.
///
/// Only the terms with a coefficient other than zero are stored, each under
/// its exponent.
#[derive(PartialEq, Debug, Clone)]
pub struct Polynomial<T> {
    coefficients: BTreeMap<u32, T>,
}

impl<T: Domain> View for Polynomial<T> {
    type V = Map<nat, T::Value>;

    /// The polynomial as a map from the exponents of its terms to the values
    /// of their coefficients.
    open spec fn view(&self) -> Map<nat, T::Value> {
        Map::new(
            |k: nat| k <= u32::MAX && self.terms().contains_key(k as u32),
            |k: nat| self.terms()[k as u32].value(),
        )
    }
}

impl<T: Domain> Polynomial<T> {
    /// The stored terms: the coefficients by exponent.
    pub closed spec fn terms(&self) -> Map<u32, T> {
        self.coefficients@
    }

    /// No stored coefficient is zero, and each is a valid value of its domain.
    pub open spec fn well_formed(&self) -> bool {
        forall|k: u32| #[trigger]
            self.terms().contains_key(k) ==> self.terms()[k].well_formed() && self.terms()[k].value()
                != T::zero_value()
    }

    /// The view of a well-formed polynomial holds no zero coefficient, and no
    /// exponent beyond those a polynomial can store.
    pub proof fn lemma_view_sparse(&self)
        requires
            self.well_formed(),
        ensures
            model::sparse::<T>(self@),
            model::bounded::<T>(self@),
    {
        assert forall|k: nat| self@.contains_key(k) implies self@[k] != T::zero_value() by {
            assert(self.terms().contains_key(k as u32));
        }
    }

    /// Returns a new polynomial with all coefficients set to zero.
    pub fn zero() -> (r: Polynomial<T>)
        ensures
            r.well_formed(),
            r.terms() == Map::<u32, T>::empty(),
            r@ == Map::<nat, T::Value>::empty(),
    {
        let r = Polynomial { coefficients: BTreeMap::new() };
        assert(r@ =~= Map::<nat, T::Value>::empty());
        r
    }

    /// Checks if the polynomial is a zero polynomial.
    pub fn is_zero(&self) -> (b: bool)
        ensures
            b == (self@ == Map::<nat, T::Value>::empty()),
    {
        let b = self.coefficients.is_empty();
        proof {
            if b {
                assert(self@ =~= Map::<nat, T::Value>::empty());
            } else {
                let k = choose|k: u32| self.terms().contains_key(k);
                assert(self.terms().dom().contains(k));
                assert(self@.contains_key(k as nat));
            }
        }
        b
    }

    /// The exponents of the stored terms, in ascending order.
    pub(crate) fn exponents(&self) -> (r: Vec<u32>)
        ensures
            forall|i: int, j: int| 0 <= i < j < r.len() ==> r[i] < r[j],
            forall|k: u32| self.terms().contains_key(k) <==> r@.contains(k),
    {
        broadcast use vstd::std_specs::btree::group_btree_axioms;
        broadcast use vstd::laws_cmp::group_laws_cmp;

        let mut r: Vec<u32> = Vec::new();
        let ghost all = self.coefficients.keys().remaining();
        for k in it: self.coefficients.keys()
            invariant
                it.seq() == all,
                r.len() == it.index(),
                forall|i: int| 0 <= i < r.len() ==> r[i] == *all[i],
        {
            r.push(*k);
        }
        proof {
            assert(r@ =~= all.unref());
            assert(all.unref().to_set() == self.coefficients@.dom());
            assert forall|k: u32| self.terms().contains_key(k) <==> r@.contains(k) by {
                assert(self.coefficients@.dom().contains(k) <==> r@.to_set().contains(k));
            }
            vstd::std_specs::btree::axiom_increasing_seq_meaning(all);
            assert forall|i: int, j: int| 0 <= i < j < r.len() implies r[i] < r[j] by {
                let a: &u32 = all[i];
                let b: &u32 = all[j];
                assert((&a).cmp_spec(&b) is Less);
            }
        }
        r
    }

    /// Returns the degree of the polynomial.
    ///
    /// Returns `Some(u32)` if the polynomial is not the zero polynomial, otherwise returns `None`.
    pub fn degree(&self) -> (r: Option<u32>)
        ensures
            match r {
                Some(d) => model::is_degree::<T>(self@, d as nat),
                None => self@ == Map::<nat, T::Value>::empty(),
            },
    {
        let exponents = self.exponents();
        if exponents.len() == 0 {
            assert forall|k: nat| !self@.contains_key(k) by {
                if self@.contains_key(k) {
                    assert(exponents@.contains(k as u32));
                }
            }
            assert(self@ =~= Map::<nat, T::Value>::empty());
            None
        } else {
            let d = exponents[exponents.len() - 1];
            proof {
                assert(exponents@.contains(d));
                assert forall|k: nat| self@.contains_key(k) implies k <= d by {
                    assert(exponents@.contains(k as u32));
                    let i = choose|i: int| 0 <= i < exponents.len() && exponents[i] == k as u32;
                    if i < exponents.len() - 1 {
                        assert(exponents[i] < exponents[exponents.len() - 1]);
                    }
                }
            }
            Some(d)
        }
    }

    /// Sets all coefficients to zero.
    pub fn clear(&mut self)
        ensures
            final(self).well_formed(),
            final(self).terms() == Map::<u32, T>::empty(),
            final(self)@ == Map::<nat, T::Value>::empty(),
    {
        self.coefficients.clear();
        assert(self@ =~= Map::<nat, T::Value>::empty());
    }
}

/// One of the first `i` of the exponents is `k`.
pub open spec fn among_first(exponents: Seq<u32>, i: int, k: nat) -> bool {
    exists|j: int| 0 <= j < i && j < exponents.len() && exponents[j] == k
}

/// The first `i + 1` of the ascending exponents are the first `i` and the one
/// at `i`, which is not among the first `i`.
pub proof fn lemma_among_first_step(exponents: Seq<u32>, i: int, k: nat)
    requires
        0 <= i < exponents.len(),
        forall|a: int, b: int| 0 <= a < b < exponents.len() ==> exponents[a] < exponents[b],
    ensures
        among_first(exponents, i + 1, k) <==> among_first(exponents, i, k) || exponents[i] == k,
        exponents[i] == k ==> !among_first(exponents, i, k),
{
    if among_first(exponents, i, k) {
        let j = choose|j: int| 0 <= j < i && j < exponents.len() && exponents[j] == k;
        assert(exponents[j] < exponents[i]);
        assert(among_first(exponents, i + 1, k));
    }
    if exponents[i] == k {
        assert(among_first(exponents, i + 1, k));
    }
    if among_first(exponents, i + 1, k) {
        let j = choose|j: int| 0 <= j < i + 1 && j < exponents.len() && exponents[j] == k;
        if j < i {
            assert(among_first(exponents, i, k));
        }
    }
}

impl<T: Domain> Polynomial<T> {
    /// A term is stored under `k` just when `k` is one of the exponents.
    pub proof fn lemma_stored_among(&self, exponents: Seq<u32>, k: nat)
        requires
            forall|k: u32| self.terms().contains_key(k) <==> exponents.contains(k),
        ensures
            self@.contains_key(k) <==> among_first(exponents, exponents.len() as int, k),
    {
        if self@.contains_key(k) {
            assert(exponents.contains(k as u32));
            let j = choose|j: int| 0 <= j < exponents.len() && exponents[j] == k as u32;
            assert(among_first(exponents, exponents.len() as int, k));
        }
        if among_first(exponents, exponents.len() as int, k) {
            let j = choose|j: int|
                0 <= j < exponents.len() && j < exponents.len() && exponents[j] == k;
            assert(exponents.contains(exponents[j]));
        }
    }
}

impl<T: Ring> Polynomial<T> {
    /// Evaluates the polynomial at a given x using Horner's method.
    ///
    /// The stored terms are taken from the highest exponent down; between two
    /// of them, and after the last, the accumulator is multiplied by x raised
    /// to the gap between the exponents. The result is the sum of the terms
    /// `coefficient * x^exponent`: over all exponents, and so over those below
    /// any bound above the degree.
    pub fn evaluate(&self, x: T) -> (r: T)
        requires
            self.well_formed(),
            x.well_formed(),
        ensures
            r.well_formed(),
            r.value() == model::value_at::<T>(self@, x.value()),
            forall|n: nat|
                model::degree_below::<T>(self@, n) ==> r.value() == #[trigger] model::partial_value::<
                    T,
                >(self@, x.value(), n),
    {
        let exponents = self.exponents();
        let mut result = T::zero();
        let mut last_power: Option<u32> = None;
        let mut i: usize = exponents.len();
        let ghost xv = x.value();
        proof {
            self.lemma_view_sparse();
        }
        while i > 0
            invariant
                i <= exponents.len(),
                self.well_formed(),
                x.well_formed(),
                xv == x.value(),
                result.well_formed(),
                model::bounded::<T>(self@),
                forall|a: int, b: int| 0 <= a < b < exponents.len() ==> exponents[a] < exponents[b],
                forall|k: u32| self.terms().contains_key(k) <==> exponents@.contains(k),
                i == exponents.len() <==> last_power is None,
                last_power is None ==> result.value() == T::zero_value(),
                last_power matches Some(l) ==> l == exponents[i as int] && result.value()
                    == model::nested_value::<T>(self@, xv, l as nat),
            decreases i,
        {
            i -= 1;
            let power = exponents[i];
            let ghost above = model::nested_value::<T>(self@, xv, power as nat + 1);
            if let Some(last_x_power) = last_power {
                assert(exponents[i as int] < exponents[i + 1]);
                let power_diff = last_x_power - power;
                result = result.times(&algebra::raise(&x, power_diff));
                proof {
                    let gap = (last_x_power - power - 1) as nat;
                    assert forall|k: nat| power < k < last_x_power implies !self@.contains_key(
                        k,
                    ) by {
                        if self@.contains_key(k) {
                            self.lemma_between_exponents(exponents@, i as int, k);
                        }
                    }
                    laws::lemma_nested_value_gap::<T>(
                        self@,
                        xv,
                        power as nat + 1,
                        last_x_power as nat,
                    );
                    T::law_product_associates(
                        model::nested_value::<T>(self@, xv, last_x_power as nat),
                        algebra::power::<T>(xv, gap),
                        xv,
                    );
                    assert(result.value() == T::product(above, xv));
                }
            } else {
                proof {
                    assert forall|k: nat| k > power implies !self@.contains_key(k) by {
                        if self@.contains_key(k) {
                            self.lemma_between_exponents(exponents@, i as int, k);
                        }
                    }
                    laws::lemma_nested_value_above::<T>(self@, xv, power as nat + 1);
                    algebra::lemma_product_zero::<T>(xv);
                    assert(result.value() == T::product(above, xv));
                }
            }
            assert(exponents@.contains(power));
            result = result.plus(&self.get_coefficient_at(power));
            proof {
                T::law_sum_commutes(
                    T::product(above, xv),
                    model::coefficient::<T>(self@, power as nat),
                );
            }
            last_power = Some(power);
        }
        match last_power {
            Some(last_x_power) => {
                // the terms below the last stored one are zero: what is left
                // is the gap down to the exponent 0
                result = result.times(&algebra::raise(&x, last_x_power));
                proof {
                    assert forall|k: nat| k < last_x_power implies !self@.contains_key(k) by {
                        if self@.contains_key(k) {
                            self.lemma_between_exponents(exponents@, -1, k);
                        }
                    }
                    laws::lemma_nested_value_gap::<T>(self@, xv, 0, last_x_power as nat);
                }
            },
            None => {
                proof {
                    assert forall|k: nat| k >= 0 implies !self@.contains_key(k) by {
                        if self@.contains_key(k) {
                            assert(exponents@.contains(k as u32));
                        }
                    }
                    laws::lemma_nested_value_above::<T>(self@, xv, 0);
                }
            },
        }
        proof {
            laws::lemma_nested_value_is_value::<T>(self@, xv);
            assert forall|n: nat| model::degree_below::<T>(self@, n) implies result.value()
                == #[trigger] model::partial_value::<T>(self@, xv, n) by {
                if n <= model::exponent_bound() {
                    laws::lemma_value_below::<T>(self@, xv, n, model::exponent_bound());
                } else {
                    laws::lemma_value_below::<T>(self@, xv, model::exponent_bound(), n);
                }
            }
        }
        result
    }

    /// No term is stored under an exponent that lies between two neighbours
    /// of the ascending exponents, above the last of them or below the first:
    /// with `k` stored, `k` is neither between the exponents at `i` and
    /// `i + 1` nor beyond the ends.
    pub proof fn lemma_between_exponents(&self, exponents: Seq<u32>, i: int, k: nat)
        requires
            forall|a: int, b: int| 0 <= a < b < exponents.len() ==> exponents[a] < exponents[b],
            forall|k: u32| self.terms().contains_key(k) <==> exponents.contains(k),
            self@.contains_key(k),
            -1 <= i < exponents.len(),
        ensures
            0 <= i ==> k <= exponents[i] || (i + 1 < exponents.len() && exponents[i + 1] <= k),
            i == -1 ==> exponents.len() > 0 && exponents[0] <= k,
    {
        assert(exponents.contains(k as u32));
        let m = choose|m: int| 0 <= m < exponents.len() && exponents[m] == k as u32;
        if 0 <= i {
            if m <= i {
                if m < i {
                    assert(exponents[m] < exponents[i]);
                }
            } else {
                if m > i + 1 {
                    assert(exponents[i + 1] < exponents[m]);
                }
            }
        } else {
            if m > 0 {
                assert(exponents[0] < exponents[m]);
            }
        }
    }

    /// Returns the derivative of a polynomial function.
    pub fn derivative(&self) -> (r: Self)
        requires
            self.well_formed(),
        ensures
            r.well_formed(),
            r@ == model::derivative::<T>(self@),
    {
        let mut result = Polynomial::zero();
        let exponents = self.exponents();
        let mut i: usize = 0;
        while i < exponents.len()
            invariant
                i <= exponents.len(),
                self.well_formed(),
                result.well_formed(),
                forall|a: int, b: int| 0 <= a < b < exponents.len() ==> exponents[a] < exponents[b],
                forall|k: u32| self.terms().contains_key(k) <==> exponents@.contains(k),
                forall|k: nat|
                    #![trigger model::coefficient::<T>(result@, k)]
                    model::coefficient::<T>(result@, k) == if among_first(
                        exponents@,
                        i as int,
                        k + 1,
                    ) {
                        T::product(
                            model::coefficient::<T>(self@, k + 1),
                            algebra::natural::<T>(k + 1),
                        )
                    } else {
                        T::zero_value()
                    },
            decreases exponents.len() - i,
        {
            let power = exponents[i];
            let ghost before = result@;
            // The term of the exponent zero has no derivative.
            if power >= 1 {
                assert(exponents@.contains(power));
                let scaled = self.get_coefficient_at(power).times(&T::from_u32(power));
                result.set_coefficient_at(power - 1, scaled);
            }
            proof {
                assert forall|k: nat|
                    #![trigger model::coefficient::<T>(result@, k)]
                    model::coefficient::<T>(result@, k) == if among_first(
                        exponents@,
                        i + 1,
                        k + 1,
                    ) {
                        T::product(
                            model::coefficient::<T>(self@, k + 1),
                            algebra::natural::<T>(k + 1),
                        )
                    } else {
                        T::zero_value()
                    } by {
                    assert(model::coefficient::<T>(before, k) == if among_first(
                        exponents@,
                        i as int,
                        k + 1,
                    ) {
                        T::product(
                            model::coefficient::<T>(self@, k + 1),
                            algebra::natural::<T>(k + 1),
                        )
                    } else {
                        T::zero_value()
                    });
                    lemma_among_first_step(exponents@, i as int, k + 1);
                }
            }
            i += 1;
        }
        proof {
            result.lemma_view_sparse();
            let f = |k: nat|
                T::product(model::coefficient::<T>(self@, k + 1), algebra::natural::<T>(k + 1));
            assert forall|k: nat| model::coefficient::<T>(result@, k) == #[trigger] f(k) by {
                self.lemma_stored_among(exponents@, k + 1);
                algebra::lemma_product_zero::<T>(algebra::natural::<T>(k + 1));
            }
            model::lemma_from_function_unique::<T>(result@, f);
        }
        result
    }
}

} // verus!
