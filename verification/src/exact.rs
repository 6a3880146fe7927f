//! What holds where the arithmetic is exact: synthetic division divides, and the
//! second division gives the derivative.
//!
//! Exact arithmetic is arithmetic that can be read as that of the whole numbers. Of
//! rounded arithmetic these laws hold up to the rounding; they say that the scheme
//! itself computes the right thing.
use vstd::prelude::*;
use crate::horner::{horner_at, is_evaluation, is_slope, step_product};
use crate::newton::{divides, finds};
use crate::scalar::{negligible_is, product_is, sum_is, Scalar};

verus! {

/// The value at `x` of the polynomial with the whole-number coefficients `c`, from
/// the highest power down to the constant.
pub open spec fn value(c: Seq<int>, x: int) -> int
    decreases c.len(),
{
    if c.len() == 0 {
        0
    } else {
        value(c.drop_last(), x) * x + c.last()
    }
}

/// The coefficients of the derivative: the term `c * x^k` gives `k * c * x^(k - 1)`,
/// and the constant gives nothing.
pub open spec fn derivative(c: Seq<int>) -> Seq<int> {
    if c.len() == 0 {
        Seq::empty()
    } else {
        Seq::new((c.len() - 1) as nat, |i: int| (c.len() - 1 - i) * c[i])
    }
}

/// `reading` takes the numbers to whole numbers in such a way that sums and products
/// are exact.
pub open spec fn is_exact<S: Scalar>(reading: spec_fn(S) -> int) -> bool {
    &&& forall|a: S, b: S, r: S| #[trigger]
        sum_is(a, b, r) ==> reading(r) == reading(a) + reading(b)
    &&& forall|a: S, b: S, r: S| #[trigger]
        product_is(a, b, r) ==> reading(r) == reading(a) * reading(b)
}

/// Where the arithmetic is exact, each partial value of Horner's scheme is the value
/// of the polynomial made of the coefficients up to its place. The last of them is
/// the value of the whole polynomial.
pub proof fn partial_values_are_values<S: Scalar>(
    reading: spec_fn(S) -> int,
    p: Seq<S>,
    x: S,
    q: Seq<S>,
    i: int,
)
    requires
        is_exact(reading),
        is_evaluation(p, x, q),
        0 <= i < p.len(),
    ensures
        reading(q[i]) == value(p.take(i + 1).map_values(reading), reading(x)),
    decreases i,
{
    let leading = p.take(i + 1).map_values(reading);
    assert(leading.drop_last() =~= p.take(i).map_values(reading));
    if i == 0 {
        assert(value(leading.drop_last(), reading(x)) == 0);
    } else {
        partial_values_are_values(reading, p, x, q, i - 1);
        assert(horner_at(p, x, q, i));
        step_product(q[i - 1], x, p[i], q[i]);
    }
}

/// Synthetic division is division. Where the arithmetic is exact, a polynomial `p`
/// divided at `r` is, at every point `x`, the quotient times `x - r` plus the
/// remainder. So where the remainder is zero, `r` is a root of `p`, and the other
/// roots of `p` are those of the quotient.
pub proof fn division_is_exact<S: Scalar>(
    reading: spec_fn(S) -> int,
    p: Seq<S>,
    r: S,
    quotient: Seq<S>,
    remainder: S,
    x: int,
)
    requires
        is_exact(reading),
        divides(p, r, quotient, remainder),
    ensures
        value(p.map_values(reading), x) == (x - reading(r)) * value(
            quotient.map_values(reading),
            x,
        ) + reading(remainder),
{
    let q = quotient.push(remainder);
    lemma_division_up_to(reading, p, r, q, x, p.len() as int);
    assert(p.take(p.len() as int) =~= p);
    assert(q.take(p.len() - 1) =~= quotient);
}

/// The second division gives the derivative. Where the arithmetic is exact, the
/// slope that is folded from the quotient of `p` at `x` is the value at `x` of the
/// derivative of `p`.
pub proof fn slope_is_the_derivative<S: Scalar>(
    reading: spec_fn(S) -> int,
    p: Seq<S>,
    x: S,
    quotient: Seq<S>,
    remainder: S,
    s: S,
)
    requires
        is_exact(reading),
        divides(p, x, quotient, remainder),
        is_slope(quotient, x, s),
    ensures
        reading(s) == value(derivative(p.map_values(reading)), reading(x)),
{
    let q = quotient.push(remainder);
    let values = choose|values: Seq<S>| #[trigger]
        is_evaluation(quotient, x, values) && values.len() > 0 && values.last() == s;
    let n = quotient.len() as int;
    partial_values_are_values(reading, quotient, x, values, n - 1);
    assert(quotient.take(n) =~= quotient);
    assert(q.take(n) =~= quotient);
    assert(p.take(n + 1) =~= p);
    lemma_derivative_up_to(reading, p, x, q, n + 1);
}

/// A root that a search finds is a root up to the convergence test. Where the
/// arithmetic is exact, the value of `p` at the root is a number that passes the
/// test; for a polynomial `a * x + b` that value is `a * root + b`.
pub proof fn root_value_is_negligible<S: Scalar>(
    reading: spec_fn(S) -> int,
    p: Seq<S>,
    guess: S,
    budget: nat,
    root: S,
    quotient: Seq<S>,
)
    requires
        is_exact(reading),
        finds(p, guess, budget, root, quotient),
    ensures
        exists|remainder: S| #[trigger]
            negligible_is(remainder, true) && reading(remainder) == value(
                p.map_values(reading),
                reading(root),
            ),
{
    let remainder = choose|remainder: S| #[trigger]
        divides(p, root, quotient, remainder) && negligible_is(remainder, true);
    let q = quotient.push(remainder);
    partial_values_are_values(reading, p, root, q, p.len() - 1);
    assert(p.take(p.len() as int) =~= p);
}

/// The first `m` coefficients of `p` are, as a polynomial at any `x`, the partial
/// values before the last of them times `x - r`, plus that last one.
proof fn lemma_division_up_to<S: Scalar>(
    reading: spec_fn(S) -> int,
    p: Seq<S>,
    r: S,
    q: Seq<S>,
    x: int,
    m: int,
)
    requires
        is_exact(reading),
        is_evaluation(p, r, q),
        1 <= m <= p.len(),
    ensures
        value(p.take(m).map_values(reading), x) == (x - reading(r)) * value(
            q.take(m - 1).map_values(reading),
            x,
        ) + reading(q[m - 1]),
    decreases m,
{
    let leading = p.take(m).map_values(reading);
    let carried = q.take(m - 1).map_values(reading);
    assert(leading.drop_last() =~= p.take(m - 1).map_values(reading));
    if m == 1 {
        assert(value(leading.drop_last(), x) == 0);
    } else {
        lemma_division_up_to(reading, p, r, q, x, m - 1);
        assert(carried.drop_last() =~= q.take(m - 2).map_values(reading));
        assert(horner_at(p, r, q, m - 1));
        step_product(q[m - 2], r, p[m - 1], q[m - 1]);
        let a = reading(r);
        let before = value(carried.drop_last(), x);
        let last = reading(q[m - 2]);
        let c = reading(p[m - 1]);
        assert(((x - a) * before + last) * x + c == (x - a) * (before * x + last) + (last * a
            + c)) by (nonlinear_arith);
    }
}

/// The derivative of the first `m` coefficients of `p` has, at `x`, the value of the
/// partial values before the last of them as a polynomial.
proof fn lemma_derivative_up_to<S: Scalar>(
    reading: spec_fn(S) -> int,
    p: Seq<S>,
    x: S,
    q: Seq<S>,
    m: int,
)
    requires
        is_exact(reading),
        is_evaluation(p, x, q),
        1 <= m <= p.len(),
    ensures
        value(derivative(p.take(m).map_values(reading)), reading(x)) == value(
            q.take(m - 1).map_values(reading),
            reading(x),
        ),
    decreases m,
{
    let leading = p.take(m).map_values(reading);
    let carried = q.take(m - 1).map_values(reading);
    lemma_product_rule(leading, reading(x));
    assert(leading.drop_last() =~= p.take(m - 1).map_values(reading));
    if m > 1 {
        lemma_derivative_up_to(reading, p, x, q, m - 1);
        partial_values_are_values(reading, p, x, q, m - 2);
        assert(carried.drop_last() =~= q.take(m - 2).map_values(reading));
    }
}

/// The product rule on Horner's form: a polynomial is its leading part times `x`
/// plus its constant, so its derivative is the derivative of the leading part times
/// `x`, plus the leading part.
proof fn lemma_product_rule(c: Seq<int>, x: int)
    requires
        c.len() >= 1,
    ensures
        value(derivative(c), x) == value(derivative(c.drop_last()), x) * x + value(
            c.drop_last(),
            x,
        ),
{
    let leading = c.drop_last();
    if c.len() > 1 {
        let grown = derivative(leading).push(0);
        let both = Seq::new(leading.len(), |i: int| grown[i] + leading[i]);
        assert forall|i: int| 0 <= i < both.len() implies derivative(c)[i] == both[i] by {
            let k = c.len() - 1 - i;
            assert(k * c[i] == (k - 1) * c[i] + c[i]) by (nonlinear_arith);
            if k == 1 {
                assert((k - 1) * c[i] == 0) by (nonlinear_arith)
                    requires
                        k == 1,
                ;
            }
        }
        assert(derivative(c) =~= both);
        lemma_value_is_additive(grown, leading, x);
        assert(grown.drop_last() =~= derivative(leading));
    }
}

/// The value of a sum of polynomials is the sum of their values.
proof fn lemma_value_is_additive(u: Seq<int>, w: Seq<int>, x: int)
    requires
        u.len() == w.len(),
    ensures
        value(Seq::new(u.len(), |i: int| u[i] + w[i]), x) == value(u, x) + value(w, x),
    decreases u.len(),
{
    if u.len() > 0 {
        let both = Seq::new(u.len(), |i: int| u[i] + w[i]);
        let shorter = Seq::new(u.drop_last().len(), |i: int| u.drop_last()[i] + w.drop_last()[i]);
        lemma_value_is_additive(u.drop_last(), w.drop_last(), x);
        assert(both.drop_last() =~= shorter);
        assert((value(u.drop_last(), x) + value(w.drop_last(), x)) * x == value(u.drop_last(), x)
            * x + value(w.drop_last(), x) * x) by (nonlinear_arith);
    }
}

} // verus!
