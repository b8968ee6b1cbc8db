//! The mathematical model of a polynomial: a map from the exponents of its
//! terms to their coefficients, which holds no zero coefficient.

use crate::algebra;
use crate::algebra::{natural, power, Domain, Field};
use vstd::prelude::*;

verus! {

/// The largest number of exponents a stored polynomial can have: exponents
/// are below this bound.
pub open spec fn exponent_bound() -> nat {
    0x1_0000_0000
}

/// The coefficient of `x^k` in `p`: zero where `p` has no such term.
pub open spec fn coefficient<T: Domain>(p: Map<nat, T::Value>, k: nat) -> T::Value {
    if p.contains_key(k) {
        p[k]
    } else {
        T::zero_value()
    }
}

/// No term of `p` has the coefficient zero.
pub open spec fn sparse<T: Domain>(p: Map<nat, T::Value>) -> bool {
    forall|k: nat| p.contains_key(k) ==> p[k] != T::zero_value()
}

/// Every exponent of `p` is below [`exponent_bound`].
pub open spec fn bounded<T: Domain>(p: Map<nat, T::Value>) -> bool {
    forall|k: nat| p.contains_key(k) ==> k < exponent_bound()
}

/// The polynomial whose coefficient of `x^k` is `f(k)`.
pub open spec fn from_function<T: Domain>(f: spec_fn(nat) -> T::Value) -> Map<nat, T::Value> {
    Map::new(|k: nat| f(k) != T::zero_value(), |k: nat| f(k))
}

/// `p` with the coefficient of `x^k` replaced by `c`.
pub open spec fn with_coefficient<T: Domain>(p: Map<nat, T::Value>, k: nat, c: T::Value) -> Map<
    nat,
    T::Value,
> {
    if c == T::zero_value() {
        p.remove(k)
    } else {
        p.insert(k, c)
    }
}

/// `d` is the largest exponent of `p`.
pub open spec fn is_degree<T: Domain>(p: Map<nat, T::Value>, d: nat) -> bool {
    p.contains_key(d) && forall|k: nat| p.contains_key(k) ==> k <= d
}

/// `p` is the zero polynomial, or its degree is below `n`.
pub open spec fn degree_below<T: Domain>(p: Map<nat, T::Value>, n: nat) -> bool {
    forall|k: nat| p.contains_key(k) ==> k < n
}

/// The polynomial given by a dense sequence of coefficients, the highest
/// exponent first.
pub open spec fn from_dense<T: Domain>(v: Seq<T::Value>) -> Map<nat, T::Value> {
    from_function::<T>(
        |k: nat|
            if k < v.len() {
                v[v.len() - 1 - k]
            } else {
                T::zero_value()
            },
    )
}

/// The dense sequence of the coefficients of `p` from the exponent `d` down
/// to 0.
pub open spec fn dense_from<T: Domain>(p: Map<nat, T::Value>, d: nat) -> Seq<T::Value> {
    Seq::new(d + 1, |i: int| coefficient::<T>(p, (d - i) as nat))
}

/// `p + q`.
pub open spec fn sum<T: Domain>(p: Map<nat, T::Value>, q: Map<nat, T::Value>) -> Map<
    nat,
    T::Value,
> {
    from_function::<T>(|k: nat| T::sum(coefficient::<T>(p, k), coefficient::<T>(q, k)))
}

/// `p - q`.
pub open spec fn difference<T: Domain>(p: Map<nat, T::Value>, q: Map<nat, T::Value>) -> Map<
    nat,
    T::Value,
> {
    from_function::<T>(
        |k: nat| algebra::difference::<T>(coefficient::<T>(p, k), coefficient::<T>(q, k)),
    )
}

/// `-p`.
pub open spec fn negated<T: Domain>(p: Map<nat, T::Value>) -> Map<nat, T::Value> {
    from_function::<T>(|k: nat| T::negation(coefficient::<T>(p, k)))
}

/// No term of `p * q` has an exponent that a polynomial cannot store.
pub open spec fn product_fits<T: Domain>(p: Map<nat, T::Value>, q: Map<nat, T::Value>) -> bool {
    forall|i: nat, j: nat| p.contains_key(i) && q.contains_key(j) ==> i + j < exponent_bound()
}

/// `p` with every coefficient multiplied by `c`.
pub open spec fn scaled<T: Domain>(p: Map<nat, T::Value>, c: T::Value) -> Map<nat, T::Value> {
    from_function::<T>(|k: nat| T::product(coefficient::<T>(p, k), c))
}

/// `p` with every coefficient divided by `c`.
pub open spec fn divided<T: Field>(p: Map<nat, T::Value>, c: T::Value) -> Map<nat, T::Value> {
    from_function::<T>(|k: nat| T::quotient(coefficient::<T>(p, k), c))
}

/// The polynomial `c * x^m`.
pub open spec fn single_term<T: Domain>(m: nat, c: T::Value) -> Map<nat, T::Value> {
    with_coefficient::<T>(Map::empty(), m, c)
}

/// `q` and `r` are the quotient and the remainder of `n` by `d`:
/// `n == q * d + r`, and `r` is zero or of a degree below that of `d`.
pub open spec fn is_division<T: Domain>(
    n: Map<nat, T::Value>,
    d: Map<nat, T::Value>,
    q: Map<nat, T::Value>,
    r: Map<nat, T::Value>,
) -> bool {
    &&& n == sum::<T>(product::<T>(q, d), r)
    &&& forall|dd: nat| is_degree::<T>(d, dd) ==> degree_below::<T>(r, dd)
}

/// The sum of `p[i] * q[k - i]` over the `i` below `n`: with `n == k + 1`, the
/// coefficient of `x^k` in `p * q`.
pub open spec fn convolution<T: Domain>(
    p: Map<nat, T::Value>,
    q: Map<nat, T::Value>,
    k: nat,
    n: nat,
) -> T::Value
    decreases n,
{
    if n == 0 {
        T::zero_value()
    } else {
        let i = (n - 1) as nat;
        T::sum(
            convolution::<T>(p, q, k, i),
            if i <= k {
                T::product(coefficient::<T>(p, i), coefficient::<T>(q, (k - i) as nat))
            } else {
                T::zero_value()
            },
        )
    }
}

/// `p * q`.
pub open spec fn product<T: Domain>(p: Map<nat, T::Value>, q: Map<nat, T::Value>) -> Map<
    nat,
    T::Value,
> {
    from_function::<T>(|k: nat| convolution::<T>(p, q, k, k + 1))
}

/// The derivative of `p`: the coefficient of `x^k` is that of `x^(k + 1)` in
/// `p`, multiplied by `k + 1`.
pub open spec fn derivative<T: Domain>(p: Map<nat, T::Value>) -> Map<nat, T::Value> {
    from_function::<T>(
        |k: nat| T::product(coefficient::<T>(p, k + 1), natural::<T>(k + 1)),
    )
}

/// The sum of `p[k] * x^k` over the `k` below `n`.
pub open spec fn partial_value<T: Domain>(p: Map<nat, T::Value>, x: T::Value, n: nat) -> T::Value
    decreases n,
{
    if n == 0 {
        T::zero_value()
    } else {
        let k = (n - 1) as nat;
        T::sum(
            partial_value::<T>(p, x, k),
            T::product(coefficient::<T>(p, k), power::<T>(x, k)),
        )
    }
}

/// The value of `p` at `x`: the sum of `p[k] * x^k` over all exponents.
pub open spec fn value_at<T: Domain>(p: Map<nat, T::Value>, x: T::Value) -> T::Value {
    partial_value::<T>(p, x, exponent_bound())
}

/// The sum of `p[k] * x^(k - lo)` over the `k` from `lo` on, in the nested form
/// that evaluates it from the highest exponent down:
/// `p[lo] + x * (p[lo + 1] + x * (...))`.
pub open spec fn nested_value<T: Domain>(p: Map<nat, T::Value>, x: T::Value, lo: nat) -> T::Value
    decreases exponent_bound() - lo,
{
    if lo >= exponent_bound() {
        T::zero_value()
    } else {
        T::sum(coefficient::<T>(p, lo), T::product(nested_value::<T>(p, x, lo + 1), x))
    }
}

/// A polynomial is the function that its coefficients are: a sparse map with
/// the coefficients `f` is `from_function(f)`.
pub proof fn lemma_from_function_unique<T: Domain>(
    p: Map<nat, T::Value>,
    f: spec_fn(nat) -> T::Value,
)
    requires
        sparse::<T>(p),
        forall|k: nat| coefficient::<T>(p, k) == #[trigger] f(k),
    ensures
        p == from_function::<T>(f),
{
    let q = from_function::<T>(f);
    assert forall|k: nat| p.contains_key(k) <==> q.contains_key(k) by {
        assert(coefficient::<T>(p, k) == f(k));
    }
    assert forall|k: nat| p.contains_key(k) implies p[k] == q[k] by {
        assert(coefficient::<T>(p, k) == f(k));
    }
    assert(p =~= q);
}

/// The coefficients of `from_function(f)` are `f`, and it is sparse.
pub proof fn lemma_from_function_coefficients<T: Domain>(f: spec_fn(nat) -> T::Value)
    ensures
        sparse::<T>(from_function::<T>(f)),
        forall|k: nat| #[trigger] coefficient::<T>(from_function::<T>(f), k) == f(k),
{
}

/// Two sparse polynomials with the same coefficients are the same.
pub proof fn lemma_equal_by_coefficients<T: Domain>(p: Map<nat, T::Value>, q: Map<nat, T::Value>)
    requires
        sparse::<T>(p),
        sparse::<T>(q),
        forall|k: nat| #[trigger] coefficient::<T>(p, k) == coefficient::<T>(q, k),
    ensures
        p == q,
{
    assert forall|k: nat| p.contains_key(k) <==> q.contains_key(k) by {
        assert(coefficient::<T>(p, k) == coefficient::<T>(q, k));
    }
    assert forall|k: nat| p.contains_key(k) implies p[k] == q[k] by {
        assert(coefficient::<T>(p, k) == coefficient::<T>(q, k));
    }
    assert(p =~= q);
}

} // verus!
