//! Methods for manipulating the coefficients of a polynomial.

use super::model;
use super::Polynomial;
use crate::algebra::{Domain, Field, Ring};
use vstd::prelude::*;

verus! {

/// The values that a sequence of coefficients stands for.
pub open spec fn values<T: Domain>(v: Seq<T>) -> Seq<T::Value> {
    Seq::new(v.len(), |i: int| v[i].value())
}

/// Every coefficient of the sequence is a valid value of its domain.
pub open spec fn all_well_formed<T: Domain>(v: Seq<T>) -> bool {
    forall|i: int| 0 <= i < v.len() ==> (#[trigger] v[i]).well_formed()
}

/// Appends `count` zeros to `v`.
fn push_zeros<T: Ring>(v: &mut Vec<T>, count: u32)
    requires
        all_well_formed(old(v)@),
    ensures
        all_well_formed(final(v)@),
        final(v)@.len() == old(v)@.len() + count,
        forall|i: int| 0 <= i < old(v)@.len() ==> final(v)@[i] == old(v)@[i],
        forall|i: int| old(v)@.len() <= i < final(v)@.len() ==> final(v)@[i].value() == T::zero_value(),
{
    let mut n: u32 = 0;
    while n < count
        invariant
            n <= count,
            all_well_formed(v@),
            v@.len() == old(v)@.len() + n,
            forall|i: int| 0 <= i < old(v)@.len() ==> v@[i] == old(v)@[i],
            forall|i: int| old(v)@.len() <= i < v@.len() ==> v@[i].value() == T::zero_value(),
        decreases count - n,
    {
        v.push(T::zero());
        n += 1;
    }
}

impl<T: Ring> Polynomial<T> {
    /// Sets the coefficient in the term with the indeterminate raised to the given power.
    ///
    /// A zero coefficient removes the term.
    pub fn set_coefficient_at(&mut self, power: u32, coefficient: T)
        requires
            old(self).well_formed(),
            coefficient.well_formed(),
        ensures
            final(self).well_formed(),
            final(self).terms() == if coefficient.value() == T::zero_value() {
                old(self).terms().remove(power)
            } else {
                old(self).terms().insert(power, coefficient)
            },
            final(self)@ == model::with_coefficient::<T>(
                old(self)@,
                power as nat,
                coefficient.value(),
            ),
    {
        if coefficient.is_zero() {
            self.coefficients.remove(&power);
            assert(self@ =~= old(self)@.remove(power as nat));
            return ;
        }
        self.coefficients.insert(power, coefficient);
        assert(self@ =~= old(self)@.insert(power as nat, coefficient.value()));
    }

    /// Returns the coefficient from the term with the indeterminate raised to the given power.
    ///
    /// The coefficient of a term that is not stored is zero.
    pub fn get_coefficient_at(&self, power: u32) -> (r: T)
        requires
            self.well_formed(),
        ensures
            r.well_formed(),
            r.value() == model::coefficient::<T>(self@, power as nat),
    {
        match self.coefficients.get(&power) {
            Some(c) => {
                assert(self.terms().contains_key(power));
                c.duplicate()
            },
            None => T::zero(),
        }
    }

    /// Adds the specified value to the coefficient of the term with the indeterminate raised
    /// to the given power.
    pub fn add_coefficient_at(&mut self, power: u32, coefficient: T)
        requires
            old(self).well_formed(),
            coefficient.well_formed(),
        ensures
            final(self).well_formed(),
            final(self)@ == model::with_coefficient::<T>(
                old(self)@,
                power as nat,
                T::sum(model::coefficient::<T>(old(self)@, power as nat), coefficient.value()),
            ),
    {
        let updated = self.get_coefficient_at(power).plus(&coefficient);
        self.set_coefficient_at(power, updated);
    }

    /// Subtracts the specified value from the coefficient of the term with the indeterminate
    /// raised to the given power.
    pub fn sub_coefficient_at(&mut self, power: u32, coefficient: T)
        requires
            old(self).well_formed(),
            coefficient.well_formed(),
        ensures
            final(self).well_formed(),
            final(self)@ == model::with_coefficient::<T>(
                old(self)@,
                power as nat,
                T::sum(
                    model::coefficient::<T>(old(self)@, power as nat),
                    T::negation(coefficient.value()),
                ),
            ),
    {
        let updated = self.get_coefficient_at(power).minus(&coefficient);
        self.set_coefficient_at(power, updated);
    }

    /// Multiplies the coefficient of the term with the indeterminate raised to the given power
    /// by the specified value.
    pub fn mul_coefficient_at(&mut self, power: u32, coefficient: T)
        requires
            old(self).well_formed(),
            coefficient.well_formed(),
        ensures
            final(self).well_formed(),
            final(self)@ == model::with_coefficient::<T>(
                old(self)@,
                power as nat,
                T::product(model::coefficient::<T>(old(self)@, power as nat), coefficient.value()),
            ),
    {
        let updated = self.get_coefficient_at(power).times(&coefficient);
        self.set_coefficient_at(power, updated);
    }

    /// Creates a new instance from a vector of coefficients.
    ///
    /// The coefficients must specify subsequent terms sorted by their degree in descending order,
    /// with the last coefficient in the vector specifying the term of degree zero.
    pub fn from_coefficients(coefficients: &Vec<T>) -> (r: Polynomial<T>)
        requires
            all_well_formed(coefficients@),
            coefficients@.len() <= model::exponent_bound(),
        ensures
            r.well_formed(),
            r@ == model::from_dense::<T>(values(coefficients@)),
    {
        let mut poly = Polynomial::zero();
        let n = coefficients.len();
        let ghost dense = values(coefficients@);
        let mut i: usize = 0;
        while i < n
            invariant
                i <= n,
                n == coefficients@.len(),
                n <= model::exponent_bound(),
                dense == values(coefficients@),
                all_well_formed(coefficients@),
                poly.well_formed(),
                forall|k: nat|
                    #![trigger model::coefficient::<T>(poly@, k)]
                    model::coefficient::<T>(poly@, k) == if n - i <= k < n {
                        dense[n - 1 - k]
                    } else {
                        T::zero_value()
                    },
            decreases n - i,
        {
            let power = (n - 1 - i) as u32;
            let ghost before = poly@;
            poly.set_coefficient_at(power, coefficients[i].duplicate());
            proof {
                assert forall|k: nat|
                    #![trigger model::coefficient::<T>(poly@, k)]
                    model::coefficient::<T>(poly@, k) == if n - (i + 1) <= k < n {
                        dense[n - 1 - k]
                    } else {
                        T::zero_value()
                    } by {
                    assert(model::coefficient::<T>(before, k) == if n - i <= k < n {
                        dense[n - 1 - k]
                    } else {
                        T::zero_value()
                    });
                }
            }
            i += 1;
        }
        proof {
            poly.lemma_view_sparse();
            model::lemma_from_function_unique::<T>(
                poly@,
                |k: nat|
                    if k < dense.len() {
                        dense[dense.len() - 1 - k]
                    } else {
                        T::zero_value()
                    },
            );
        }
        poly
    }

    /// Returns a vector of coefficients.
    ///
    /// The vector starts with the coefficient of the term of the highest degree, followed by
    /// all later coefficients, down to the term of degree zero.
    /// For the zero polynomial, this returns an empty vector.
    pub fn get_coefficients(&self) -> (r: Vec<T>)
        requires
            self.well_formed(),
        ensures
            all_well_formed(r@),
            self@ == Map::<nat, T::Value>::empty() ==> r@.len() == 0,
            forall|d: nat|
                model::is_degree::<T>(self@, d) ==> values(r@) == model::dense_from::<T>(self@, d),
    {
        let exponents = self.exponents();
        let mut result: Vec<T> = Vec::new();
        let mut last_power: Option<u32> = None;
        let mut i: usize = exponents.len();
        if i == 0 {
            assert forall|d: nat| !model::is_degree::<T>(self@, d) by {
                if self@.contains_key(d) {
                    assert(exponents@.contains(d as u32));
                }
            }
            return result;
        }
        let ghost top = exponents[exponents.len() - 1] as nat;
        proof {
            assert(exponents@.contains(exponents[exponents.len() - 1]));
            assert forall|k: nat| self@.contains_key(k) implies k <= top by {
                assert(exponents@.contains(k as u32));
                let j = choose|j: int| 0 <= j < exponents.len() && exponents[j] == k as u32;
                if j < exponents.len() - 1 {
                    assert(exponents[j] < exponents[exponents.len() - 1]);
                }
            }
            assert(model::is_degree::<T>(self@, top));
        }
        while i > 0
            invariant
                i <= exponents.len(),
                exponents.len() > 0,
                top == exponents[exponents.len() - 1],
                self.well_formed(),
                forall|a: int, b: int| 0 <= a < b < exponents.len() ==> exponents[a] < exponents[b],
                forall|k: u32| self.terms().contains_key(k) <==> exponents@.contains(k),
                all_well_formed(result@),
                i == exponents.len() <==> last_power is None,
                last_power matches Some(l) ==> l == exponents[i as int] && result@.len() == top - l
                    + 1,
                last_power is None ==> result@.len() == 0,
                forall|j: int|
                    0 <= j < result@.len() ==> (#[trigger] result@[j]).value()
                        == model::coefficient::<T>(self@, (top - j) as nat),
            decreases i,
        {
            i -= 1;
            let power = exponents[i];
            // Add skipped zero coefficients
            if let Some(last_x_power) = last_power {
                assert(exponents[i as int] < exponents[i + 1]);
                let skipped_powers_count = last_x_power - power - 1;
                let ghost before = result@;
                push_zeros(&mut result, skipped_powers_count);
                proof {
                    assert forall|j: int| before.len() <= j < result@.len() implies (
                    #[trigger] result@[j]).value() == model::coefficient::<T>(
                        self@,
                        (top - j) as nat,
                    ) by {
                        let k = (top - j) as nat;
                        if self@.contains_key(k) {
                            assert(exponents@.contains(k as u32));
                            let m = choose|m: int|
                                0 <= m < exponents.len() && exponents[m] == k as u32;
                            if m <= i {
                                if m < i {
                                    assert(exponents[m] < exponents[i as int]);
                                }
                            } else {
                                if m > i + 1 {
                                    assert(exponents[i + 1] < exponents[m]);
                                }
                            }
                        }
                    }
                }
            }
            assert(exponents@.contains(power));
            result.push(self.get_coefficient_at(power));
            last_power = Some(power);
        }

        // Prevent the trailing zero coefficients from being skipped
        if let Some(last_x_power) = last_power {
            let ghost before = result@;
            push_zeros(&mut result, last_x_power);
            proof {
                assert forall|j: int| before.len() <= j < result@.len() implies (
                #[trigger] result@[j]).value() == model::coefficient::<T>(
                    self@,
                    (top - j) as nat,
                ) by {
                    let k = (top - j) as nat;
                    if self@.contains_key(k) {
                        assert(exponents@.contains(k as u32));
                        let m = choose|m: int| 0 <= m < exponents.len() && exponents[m] == k as u32;
                        if m > 0 {
                            assert(exponents[0] < exponents[m]);
                        }
                    }
                }
            }
        }
        proof {
            assert(values(result@) =~= model::dense_from::<T>(self@, top));
            assert forall|d: nat| model::is_degree::<T>(self@, d) implies d == top by {}
        }
        result
    }
}

impl<T: Field> Polynomial<T> {
    /// Divides the coefficient of the term with the indeterminate raised to the given power
    /// by the specified value, which is not zero.
    pub fn div_coefficient_at(&mut self, power: u32, coefficient: T)
        requires
            old(self).well_formed(),
            coefficient.well_formed(),
            coefficient.value() != T::zero_value(),
        ensures
            final(self).well_formed(),
            final(self)@ == model::with_coefficient::<T>(
                old(self)@,
                power as nat,
                T::quotient(model::coefficient::<T>(old(self)@, power as nat), coefficient.value()),
            ),
    {
        let updated = self.get_coefficient_at(power).divided_by(&coefficient);
        self.set_coefficient_at(power, updated);
    }
}

} // verus!
