//! What holds of the operations on polynomials, over their models.

use super::model::{
    coefficient, convolution, degree_below, dense_from, derivative, difference, exponent_bound,
    from_dense, is_degree, is_division, lemma_equal_by_coefficients,
    lemma_from_function_coefficients, nested_value, partial_value, product, scaled,
    single_term, sparse, sum, value_at,
};
use crate::algebra;
use crate::algebra::{natural, power, Domain, Field};
use vstd::prelude::*;

verus! {

/// The degree of the polynomial given by a dense sequence is the length of
/// the sequence less one, where the first coefficient of the sequence is not
/// zero.
pub proof fn law_degree_of_dense<T: Domain>(v: Seq<T::Value>)
    requires
        v.len() > 0,
        v[0] != T::zero_value(),
    ensures
        is_degree::<T>(from_dense::<T>(v), (v.len() - 1) as nat),
{
}

/// The zero polynomial has no degree.
pub proof fn law_zero_has_no_degree<T: Domain>(d: nat)
    ensures
        !is_degree::<T>(Map::<nat, T::Value>::empty(), d),
{
}

/// A dense sequence whose first coefficient is not zero is given back by the
/// polynomial made from it: its coefficients from its degree down are the
/// sequence.
pub proof fn law_dense_round_trip<T: Domain>(v: Seq<T::Value>)
    requires
        v.len() > 0,
        v[0] != T::zero_value(),
    ensures
        dense_from::<T>(from_dense::<T>(v), (v.len() - 1) as nat) == v,
{
    assert(dense_from::<T>(from_dense::<T>(v), (v.len() - 1) as nat) =~= v);
}

/// The derivative of a sum is the sum of the derivatives.
pub proof fn law_derivative_of_sum<T: Domain>(p: Map<nat, T::Value>, q: Map<nat, T::Value>)
    ensures
        derivative::<T>(sum::<T>(p, q)) == sum::<T>(derivative::<T>(p), derivative::<T>(q)),
{
    let left = derivative::<T>(sum::<T>(p, q));
    let right = sum::<T>(derivative::<T>(p), derivative::<T>(q));
    lemma_from_function_coefficients::<T>(
        |k: nat| T::sum(coefficient::<T>(p, k), coefficient::<T>(q, k)),
    );
    lemma_from_function_coefficients::<T>(
        |k: nat| T::product(coefficient::<T>(p, k + 1), natural::<T>(k + 1)),
    );
    lemma_from_function_coefficients::<T>(
        |k: nat| T::product(coefficient::<T>(q, k + 1), natural::<T>(k + 1)),
    );
    lemma_from_function_coefficients::<T>(
        |k: nat| T::product(coefficient::<T>(sum::<T>(p, q), k + 1), natural::<T>(k + 1)),
    );
    lemma_from_function_coefficients::<T>(
        |k: nat|
            T::sum(
                coefficient::<T>(derivative::<T>(p), k),
                coefficient::<T>(derivative::<T>(q), k),
            ),
    );
    assert forall|k: nat| #[trigger] coefficient::<T>(left, k) == coefficient::<T>(right, k) by {
        assert(coefficient::<T>(sum::<T>(p, q), k + 1) == T::sum(
            coefficient::<T>(p, k + 1),
            coefficient::<T>(q, k + 1),
        ));
        algebra::lemma_product_distributes_left::<T>(
            coefficient::<T>(p, k + 1),
            coefficient::<T>(q, k + 1),
            natural::<T>(k + 1),
        );
    }
    lemma_equal_by_coefficients::<T>(left, right);
}

/// Addition commutes: `p + q == q + p`.
pub proof fn law_sum_commutes<T: Domain>(p: Map<nat, T::Value>, q: Map<nat, T::Value>)
    ensures
        sum::<T>(p, q) == sum::<T>(q, p),
{
    lemma_from_function_coefficients::<T>(
        |k: nat| T::sum(coefficient::<T>(p, k), coefficient::<T>(q, k)),
    );
    lemma_from_function_coefficients::<T>(
        |k: nat| T::sum(coefficient::<T>(q, k), coefficient::<T>(p, k)),
    );
    assert forall|k: nat| #[trigger]
        coefficient::<T>(sum::<T>(p, q), k) == coefficient::<T>(sum::<T>(q, p), k) by {
        T::law_sum_commutes(coefficient::<T>(p, k), coefficient::<T>(q, k));
    }
    lemma_equal_by_coefficients::<T>(sum::<T>(p, q), sum::<T>(q, p));
}

/// A polynomial multiplied by the scalar zero is the zero polynomial.
pub proof fn law_scaled_by_zero<T: Domain>(p: Map<nat, T::Value>)
    ensures
        scaled::<T>(p, T::zero_value()) == Map::<nat, T::Value>::empty(),
{
    assert forall|k: nat| !scaled::<T>(p, T::zero_value()).contains_key(k) by {
        algebra::lemma_product_zero::<T>(coefficient::<T>(p, k));
    }
    assert(scaled::<T>(p, T::zero_value()) =~= Map::<nat, T::Value>::empty());
}

/// The terms above the degree add nothing to the value: the sum over the
/// exponents below `n` is the sum over all exponents, where `n` is above the
/// degree.
pub proof fn lemma_value_below<T: Domain>(p: Map<nat, T::Value>, x: T::Value, n: nat, m: nat)
    requires
        degree_below::<T>(p, n),
        n <= m,
    ensures
        partial_value::<T>(p, x, m) == partial_value::<T>(p, x, n),
    decreases m,
{
    if n < m {
        let k = (m - 1) as nat;
        lemma_value_below::<T>(p, x, n, k);
        algebra::lemma_product_zero::<T>(power::<T>(x, k));
        T::law_sum_zero(partial_value::<T>(p, x, k));
    }
}

/// Above the highest term the nested form is zero.
pub proof fn lemma_nested_value_above<T: Domain>(p: Map<nat, T::Value>, x: T::Value, lo: nat)
    requires
        forall|k: nat| k >= lo ==> !p.contains_key(k),
    ensures
        nested_value::<T>(p, x, lo) == T::zero_value(),
    decreases exponent_bound() - lo,
{
    if lo < exponent_bound() {
        lemma_nested_value_above::<T>(p, x, lo + 1);
        algebra::lemma_product_zero::<T>(x);
        T::law_sum_zero(T::zero_value());
    }
}

/// Across a gap without terms the nested form is multiplied by `x` once for
/// each exponent of the gap.
pub proof fn lemma_nested_value_gap<T: Domain>(p: Map<nat, T::Value>, x: T::Value, a: nat, b: nat)
    requires
        a <= b < exponent_bound(),
        forall|k: nat| a <= k < b ==> !p.contains_key(k),
    ensures
        nested_value::<T>(p, x, a) == T::product(
            nested_value::<T>(p, x, b),
            power::<T>(x, (b - a) as nat),
        ),
    decreases b - a,
{
    if a == b {
        T::law_product_one(nested_value::<T>(p, x, b));
    } else {
        lemma_nested_value_gap::<T>(p, x, a + 1, b);
        let n = (b - a - 1) as nat;
        algebra::lemma_zero_sum::<T>(T::product(nested_value::<T>(p, x, a + 1), x));
        T::law_product_associates(nested_value::<T>(p, x, b), power::<T>(x, n), x);
        assert(power::<T>(x, (b - a) as nat) == T::product(power::<T>(x, n), x));
    }
}

/// The terms below `lo` by direct summation, and those from `lo` on in the
/// nested form, make up the whole sum.
pub proof fn lemma_nested_value_splits<T: Domain>(p: Map<nat, T::Value>, x: T::Value, lo: nat)
    requires
        lo <= exponent_bound(),
    ensures
        partial_value::<T>(p, x, exponent_bound()) == T::sum(
            partial_value::<T>(p, x, lo),
            T::product(nested_value::<T>(p, x, lo), power::<T>(x, lo)),
        ),
    decreases exponent_bound() - lo,
{
    if lo == exponent_bound() {
        algebra::lemma_product_zero::<T>(power::<T>(x, lo));
        T::law_sum_zero(partial_value::<T>(p, x, lo));
    } else {
        lemma_nested_value_splits::<T>(p, x, lo + 1);
        let c = coefficient::<T>(p, lo);
        let h = nested_value::<T>(p, x, lo + 1);
        let xl = power::<T>(x, lo);
        let s = partial_value::<T>(p, x, lo);
        // (c + h * x) * x^lo == c * x^lo + h * x^(lo + 1)
        algebra::lemma_product_distributes_left::<T>(c, T::product(h, x), xl);
        T::law_product_associates(h, x, xl);
        T::law_product_commutes(x, xl);
        assert(power::<T>(x, lo + 1) == T::product(xl, x));
        T::law_sum_associates(s, T::product(c, xl), T::product(h, power::<T>(x, lo + 1)));
        assert(partial_value::<T>(p, x, lo + 1) == T::sum(s, T::product(c, xl)));
    }
}

/// Evaluation in the nested form gives the sum of `p[k] * x^k` over all
/// exponents.
pub proof fn lemma_nested_value_is_value<T: Domain>(p: Map<nat, T::Value>, x: T::Value)
    ensures
        nested_value::<T>(p, x, 0) == value_at::<T>(p, x),
{
    lemma_nested_value_splits::<T>(p, x, 0);
    T::law_product_one(nested_value::<T>(p, x, 0));
    algebra::lemma_zero_sum::<T>(nested_value::<T>(p, x, 0));
}

/// Rows without a term add nothing to a convolution, nor do the rows beyond
/// `k`.
pub proof fn lemma_convolution_extends<T: Domain>(
    p: Map<nat, T::Value>,
    q: Map<nat, T::Value>,
    k: nat,
    m: nat,
    n: nat,
)
    requires
        m <= n,
        forall|i: nat| m <= i < n ==> i > k || !p.contains_key(i),
    ensures
        convolution::<T>(p, q, k, m) == convolution::<T>(p, q, k, n),
    decreases n - m,
{
    if m < n {
        let i = (n - 1) as nat;
        lemma_convolution_extends::<T>(p, q, k, m, i);
        if i <= k {
            algebra::lemma_product_zero::<T>(coefficient::<T>(q, (k - i) as nat));
        }
        T::law_sum_zero(convolution::<T>(p, q, k, i));
    }
}

/// The row `i` adds nothing to the coefficient of `x^k` where `q` has no
/// term of the exponent `k - i`.
pub proof fn lemma_convolution_row<T: Domain>(
    p: Map<nat, T::Value>,
    q: Map<nat, T::Value>,
    k: nat,
    i: nat,
)
    ensures
        convolution::<T>(p, q, k, i + 1) == T::sum(
            convolution::<T>(p, q, k, i),
            if i <= k && q.contains_key((k - i) as nat) {
                T::product(coefficient::<T>(p, i), coefficient::<T>(q, (k - i) as nat))
            } else {
                T::zero_value()
            },
        ),
{
    if i <= k && !q.contains_key((k - i) as nat) {
        algebra::lemma_product_zero::<T>(coefficient::<T>(p, i));
    }
}

/// The convolution of a single term `c * x^m` with `q` has one row.
pub proof fn lemma_convolution_single_term<T: Domain>(
    m: nat,
    c: T::Value,
    q: Map<nat, T::Value>,
    k: nat,
    n: nat,
)
    ensures
        convolution::<T>(single_term::<T>(m, c), q, k, n) == if m < n && m <= k {
            T::product(c, coefficient::<T>(q, (k - m) as nat))
        } else {
            T::zero_value()
        },
    decreases n,
{
    let t = single_term::<T>(m, c);
    if n > 0 {
        let i = (n - 1) as nat;
        lemma_convolution_single_term::<T>(m, c, q, k, i);
        if i == m && i <= k {
            assert(coefficient::<T>(t, i) == c);
            algebra::lemma_zero_sum::<T>(T::product(c, coefficient::<T>(q, (k - m) as nat)));
        } else {
            if i <= k {
                assert(coefficient::<T>(t, i) == T::zero_value());
                algebra::lemma_product_zero::<T>(coefficient::<T>(q, (k - i) as nat));
            }
            T::law_sum_zero(convolution::<T>(t, q, k, i));
        }
    }
}

/// A convolution is additive in its left operand.
pub proof fn lemma_convolution_adds<T: Domain>(
    p: Map<nat, T::Value>,
    r: Map<nat, T::Value>,
    s: Map<nat, T::Value>,
    q: Map<nat, T::Value>,
    k: nat,
    n: nat,
)
    requires
        forall|i: nat|
            #[trigger] coefficient::<T>(s, i) == T::sum(
                coefficient::<T>(p, i),
                coefficient::<T>(r, i),
            ),
    ensures
        convolution::<T>(s, q, k, n) == T::sum(
            convolution::<T>(p, q, k, n),
            convolution::<T>(r, q, k, n),
        ),
    decreases n,
{
    if n == 0 {
        T::law_sum_zero(T::zero_value());
    } else {
        let i = (n - 1) as nat;
        lemma_convolution_adds::<T>(p, r, s, q, k, i);
        let a = convolution::<T>(p, q, k, i);
        let b = convolution::<T>(r, q, k, i);
        if i <= k {
            let y = coefficient::<T>(q, (k - i) as nat);
            assert(coefficient::<T>(s, i) == T::sum(
                coefficient::<T>(p, i),
                coefficient::<T>(r, i),
            ));
            algebra::lemma_product_distributes_left::<T>(
                coefficient::<T>(p, i),
                coefficient::<T>(r, i),
                y,
            );
            algebra::lemma_sum_interchange::<T>(
                a,
                b,
                T::product(coefficient::<T>(p, i), y),
                T::product(coefficient::<T>(r, i), y),
            );
        } else {
            algebra::lemma_sum_interchange::<T>(a, b, T::zero_value(), T::zero_value());
            T::law_sum_zero(T::zero_value());
        }
    }
}

/// `(x + y) + (r - y) == x + r`.
pub proof fn lemma_sum_restores<T: Domain>(x: T::Value, y: T::Value, r: T::Value)
    ensures
        T::sum(T::sum(x, y), algebra::difference::<T>(r, y)) == T::sum(x, r),
{
    algebra::lemma_sum_interchange::<T>(x, y, r, T::negation(y));
    T::law_sum_negation(y);
    T::law_sum_zero(T::sum(x, r));
}

/// Zero divided by a value other than zero is zero.
pub proof fn lemma_quotient_of_zero<T: Field>(b: T::Value)
    requires
        b != T::zero_value(),
    ensures
        T::quotient(T::zero_value(), b) == T::zero_value(),
{
    let q = T::quotient(T::zero_value(), b);
    let inverse = T::quotient(T::one_value(), b);
    T::law_quotient(T::zero_value(), b);
    T::law_quotient(T::one_value(), b);
    // q == q * 1 == q * (b * inverse) == (q * b) * inverse == 0
    T::law_product_one(q);
    T::law_product_commutes(inverse, b);
    T::law_product_associates(q, b, inverse);
    algebra::lemma_product_zero::<T>(inverse);
}

/// A product is zero only where a factor is.
pub proof fn lemma_no_zero_divisors<T: Field>(a: T::Value, b: T::Value)
    requires
        T::product(a, b) == T::zero_value(),
        b != T::zero_value(),
    ensures
        a == T::zero_value(),
{
    let inverse = T::quotient(T::one_value(), b);
    T::law_quotient(T::one_value(), b);
    // a == a * 1 == a * (b * inverse) == (a * b) * inverse == 0
    T::law_product_one(a);
    T::law_product_commutes(inverse, b);
    T::law_product_associates(a, b, inverse);
    algebra::lemma_product_zero::<T>(inverse);
}

/// `b + (a - b) == a`, and `a - b == 0` only for `a == b`.
pub proof fn lemma_difference_restores<T: Domain>(a: T::Value, b: T::Value)
    ensures
        T::sum(b, algebra::difference::<T>(a, b)) == a,
        algebra::difference::<T>(a, b) == T::zero_value() ==> a == b,
{
    let d = algebra::difference::<T>(a, b);
    T::law_sum_commutes(b, d);
    T::law_sum_associates(a, T::negation(b), b);
    T::law_sum_commutes(T::negation(b), b);
    T::law_sum_negation(b);
    T::law_sum_zero(a);
    algebra::lemma_zero_sum::<T>(b);
}

/// A convolution in which every row but the row `m` is zero is that row.
pub proof fn lemma_convolution_one_row<T: Domain>(
    p: Map<nat, T::Value>,
    q: Map<nat, T::Value>,
    k: nat,
    n: nat,
    m: nat,
)
    requires
        forall|i: nat|
            i < n && i <= k && i != m ==> coefficient::<T>(p, i) == T::zero_value()
                || coefficient::<T>(q, (k - i) as nat) == T::zero_value(),
    ensures
        convolution::<T>(p, q, k, n) == if m < n && m <= k {
            T::product(coefficient::<T>(p, m), coefficient::<T>(q, (k - m) as nat))
        } else {
            T::zero_value()
        },
    decreases n,
{
    if n > 0 {
        let i = (n - 1) as nat;
        lemma_convolution_one_row::<T>(p, q, k, i, m);
        if i <= k && i != m {
            algebra::lemma_product_zero::<T>(coefficient::<T>(p, i));
            algebra::lemma_product_zero::<T>(coefficient::<T>(q, (k - i) as nat));
        }
        if i == m && i <= k {
            algebra::lemma_zero_sum::<T>(
                T::product(coefficient::<T>(p, m), coefficient::<T>(q, (k - m) as nat)),
            );
        } else {
            T::law_sum_zero(convolution::<T>(p, q, k, i));
        }
    }
}

/// A polynomial other than zero whose exponents are below a bound has a
/// degree.
pub proof fn lemma_has_degree<T: Domain>(p: Map<nat, T::Value>, bound: nat) -> (d: nat)
    requires
        degree_below::<T>(p, bound),
        p != Map::<nat, T::Value>::empty(),
    ensures
        is_degree::<T>(p, d),
    decreases bound,
{
    if bound == 0 {
        assert(p =~= Map::<nat, T::Value>::empty());
        0
    } else if p.contains_key((bound - 1) as nat) {
        (bound - 1) as nat
    } else {
        lemma_has_degree::<T>(p, (bound - 1) as nat)
    }
}

/// The quotients of two divisions of `n` by `d` are the same.
proof fn lemma_quotient_unique<T: Field>(
    n: Map<nat, T::Value>,
    d: Map<nat, T::Value>,
    q: Map<nat, T::Value>,
    r: Map<nat, T::Value>,
    other_q: Map<nat, T::Value>,
    other_r: Map<nat, T::Value>,
    top: nat,
    bound: nat,
)
    requires
        sparse::<T>(d),
        sparse::<T>(q),
        sparse::<T>(other_q),
        is_degree::<T>(d, top),
        degree_below::<T>(q, bound),
        degree_below::<T>(other_q, bound),
        is_division::<T>(n, d, q, r),
        is_division::<T>(n, d, other_q, other_r),
    ensures
        q == other_q,
{
    let gap = difference::<T>(q, other_q);
    lemma_from_function_coefficients::<T>(
        |k: nat| algebra::difference::<T>(coefficient::<T>(q, k), coefficient::<T>(other_q, k)),
    );
    if gap == Map::<nat, T::Value>::empty() {
        assert forall|k: nat| #[trigger]
            coefficient::<T>(q, k) == coefficient::<T>(other_q, k) by {
            assert(!gap.contains_key(k));
            assert(coefficient::<T>(gap, k) == T::zero_value());
            lemma_difference_restores::<T>(coefficient::<T>(q, k), coefficient::<T>(other_q, k));
        }
        lemma_equal_by_coefficients::<T>(q, other_q);
    } else {
        assert forall|k: nat| gap.contains_key(k) implies k < bound by {
            if k >= bound {
                algebra::lemma_difference_basics::<T>(T::zero_value());
            }
        }
        let m = lemma_has_degree::<T>(gap, bound);
        let k = m + top;
        lemma_from_function_coefficients::<T>(|k: nat| convolution::<T>(q, d, k, k + 1));
        lemma_from_function_coefficients::<T>(|k: nat| convolution::<T>(other_q, d, k, k + 1));
        lemma_from_function_coefficients::<T>(
            |k: nat| T::sum(coefficient::<T>(product::<T>(q, d), k), coefficient::<T>(r, k)),
        );
        lemma_from_function_coefficients::<T>(
            |k: nat|
                T::sum(
                    coefficient::<T>(product::<T>(other_q, d), k),
                    coefficient::<T>(other_r, k),
                ),
        );
        let mine = convolution::<T>(q, d, k, k + 1);
        let other = convolution::<T>(other_q, d, k, k + 1);
        let between = convolution::<T>(gap, d, k, k + 1);
        // above the degree of the divisor the remainders are zero
        assert(!r.contains_key(k) && !other_r.contains_key(k));
        assert(coefficient::<T>(n, k) == T::sum(mine, T::zero_value()));
        assert(coefficient::<T>(n, k) == T::sum(other, T::zero_value()));
        T::law_sum_zero(mine);
        T::law_sum_zero(other);
        assert forall|i: nat|
            #[trigger] coefficient::<T>(q, i) == T::sum(
                coefficient::<T>(other_q, i),
                coefficient::<T>(gap, i),
            ) by {
            lemma_difference_restores::<T>(coefficient::<T>(q, i), coefficient::<T>(other_q, i));
        }
        lemma_convolution_adds::<T>(other_q, gap, q, d, k, k + 1);
        // other + between == other + 0
        T::law_sum_commutes(other, between);
        algebra::lemma_zero_sum::<T>(other);
        algebra::lemma_sum_cancels::<T>(between, T::zero_value(), other);
        assert forall|i: nat|
            i < k + 1 && i <= k && i != m implies coefficient::<T>(gap, i) == T::zero_value()
                || coefficient::<T>(d, (k - i) as nat) == T::zero_value() by {
            if i > m {
                assert(!gap.contains_key(i));
            } else {
                assert(!d.contains_key((k - i) as nat));
            }
        }
        lemma_convolution_one_row::<T>(gap, d, k, k + 1, m);
        lemma_no_zero_divisors::<T>(coefficient::<T>(gap, m), coefficient::<T>(d, top));
        assert(false);
    }
}

/// The quotient and the remainder of a division are the only ones: two
/// divisions of `n` by `d`, a polynomial other than zero, have the same
/// quotient and the same remainder.
pub proof fn law_division_unique<T: Field>(
    n: Map<nat, T::Value>,
    d: Map<nat, T::Value>,
    q: Map<nat, T::Value>,
    r: Map<nat, T::Value>,
    other_q: Map<nat, T::Value>,
    other_r: Map<nat, T::Value>,
    bound: nat,
)
    requires
        sparse::<T>(d),
        sparse::<T>(q),
        sparse::<T>(r),
        sparse::<T>(other_q),
        sparse::<T>(other_r),
        d != Map::<nat, T::Value>::empty(),
        degree_below::<T>(d, bound),
        degree_below::<T>(q, bound),
        degree_below::<T>(other_q, bound),
        is_division::<T>(n, d, q, r),
        is_division::<T>(n, d, other_q, other_r),
    ensures
        q == other_q,
        r == other_r,
{
    let top = lemma_has_degree::<T>(d, bound);
    lemma_quotient_unique::<T>(n, d, q, r, other_q, other_r, top, bound);
    lemma_from_function_coefficients::<T>(
        |k: nat| T::sum(coefficient::<T>(product::<T>(q, d), k), coefficient::<T>(r, k)),
    );
    lemma_from_function_coefficients::<T>(
        |k: nat|
            T::sum(coefficient::<T>(product::<T>(other_q, d), k), coefficient::<T>(other_r, k)),
    );
    assert forall|k: nat| #[trigger] coefficient::<T>(r, k) == coefficient::<T>(other_r, k) by {
        let common = coefficient::<T>(product::<T>(q, d), k);
        assert(coefficient::<T>(n, k) == T::sum(common, coefficient::<T>(r, k)));
        assert(coefficient::<T>(n, k) == T::sum(common, coefficient::<T>(other_r, k)));
        T::law_sum_commutes(common, coefficient::<T>(r, k));
        T::law_sum_commutes(common, coefficient::<T>(other_r, k));
        algebra::lemma_sum_cancels::<T>(
            coefficient::<T>(r, k),
            coefficient::<T>(other_r, k),
            common,
        );
    }
    lemma_equal_by_coefficients::<T>(r, other_r);
}

} // verus!
