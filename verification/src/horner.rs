//! Horner's scheme: the value of a polynomial at a point, with the partial values that
//! synthetic division leaves behind.
use vstd::prelude::*;
use crate::scalar::{product_is, sum_is, Scalar};

verus! {

/// A polynomial is given by its coefficients, from the highest power down to the
/// constant, and has at least the degree one.
pub open spec fn is_polynomial<S>(p: Seq<S>) -> bool {
    p.len() >= 2
}

/// `next` can come out of one step of Horner's scheme: `prev * x + c`.
pub open spec fn horner_step<S: Scalar>(prev: S, x: S, c: S, next: S) -> bool {
    exists|t: S| product_is(prev, x, t) && sum_is(t, c, next)
}

/// The product that a step of Horner's scheme went through.
pub proof fn step_product<S: Scalar>(prev: S, x: S, c: S, next: S) -> (t: S)
    requires
        horner_step(prev, x, c, next),
    ensures
        product_is(prev, x, t),
        sum_is(t, c, next),
{
    choose|t: S| product_is(prev, x, t) && sum_is(t, c, next)
}

/// Place `i` of `q` follows from place `i - 1` by one step with coefficient `p[i]`.
pub open spec fn horner_at<S: Scalar>(p: Seq<S>, x: S, q: Seq<S>, i: int) -> bool {
    horner_step(q[i - 1], x, p[i], q[i])
}

/// `q` holds the partial values of Horner's scheme for the polynomial `p` at `x`: it
/// starts with the leading coefficient, and each further value is the one before it
/// times `x` plus the next coefficient. Its last value is the value of `p` at `x`, the
/// remainder of the division of `p` by the linear factor of `x`; the values before it
/// are the coefficients of the quotient.
pub open spec fn is_evaluation<S: Scalar>(p: Seq<S>, x: S, q: Seq<S>) -> bool {
    &&& q.len() == p.len()
    &&& p.len() > 0 ==> q[0] == p[0]
    &&& forall|i: int| 0 < i < p.len() ==> #[trigger] horner_at(p, x, q, i)
}

/// Evaluates `polynomial` at `x` by Horner's scheme and leaves the partial values in
/// `buffer`, whatever it held before.
pub fn evaluate<S: Scalar>(polynomial: &Vec<S>, x: S, buffer: &mut Vec<S>)
    ensures
        is_evaluation(polynomial@, x, final(buffer)@),
{
    buffer.clear();
    if polynomial.len() == 0 {
        return ;
    }
    buffer.push(polynomial[0]);
    let mut i: usize = 1;
    while i < polynomial.len()
        invariant
            1 <= i <= polynomial.len(),
            buffer@.len() == i,
            buffer@[0] == polynomial@[0],
            forall|j: int| 0 < j < i ==> #[trigger] horner_at(polynomial@, x, buffer@, j),
        decreases polynomial.len() - i,
    {
        let ghost before = buffer@;
        let scaled = buffer[i - 1].times(x);
        let next = scaled.plus(polynomial[i]);
        buffer.push(next);
        proof {
            assert(product_is(before[i - 1], x, scaled) && sum_is(
                scaled,
                polynomial@[i as int],
                next,
            ));
            assert forall|j: int| 0 < j < i + 1 implies #[trigger] horner_at(
                polynomial@,
                x,
                buffer@,
                j,
            ) by {
                if j < i {
                    assert(horner_at(polynomial@, x, before, j));
                }
            }
        }
        i += 1;
    }
}

/// `s` can be the slope at `x` of a polynomial whose division at `x` left the
/// quotient `d`. The slope is the value of the quotient at `x`, so dividing once more
/// gives it: it is the last partial value of Horner's scheme on `d`. Nothing is the
/// slope of an empty quotient.
pub open spec fn is_slope<S: Scalar>(d: Seq<S>, x: S, s: S) -> bool {
    exists|values: Seq<S>| #[trigger]
        is_evaluation(d, x, values) && values.len() > 0 && values.last() == s
}

/// The slope at `x` of the polynomial whose division at `x` left `quotient`: a fold
/// over the quotient that starts from its first value and takes each further value in
/// with one step of Horner's scheme.
pub fn slope<S: Scalar>(quotient: &Vec<S>, x: S) -> (s: S)
    requires
        quotient.len() > 0,
    ensures
        is_slope(quotient@, x, s),
{
    let mut s = quotient[0];
    let mut i: usize = 1;
    let ghost mut values: Seq<S> = seq![s];
    while i < quotient.len()
        invariant
            1 <= i <= quotient.len(),
            values.len() == i,
            values[0] == quotient@[0],
            values.last() == s,
            forall|j: int| 0 < j < i ==> #[trigger] horner_at(quotient@, x, values, j),
        decreases quotient.len() - i,
    {
        let scaled = s.times(x);
        let next = scaled.plus(quotient[i]);
        proof {
            let longer = values.push(next);
            assert(product_is(s, x, scaled) && sum_is(scaled, quotient@[i as int], next));
            assert forall|j: int| 0 < j < i + 1 implies #[trigger] horner_at(
                quotient@,
                x,
                longer,
                j,
            ) by {
                if j < i {
                    assert(horner_at(quotient@, x, values, j));
                }
            }
            values = longer;
        }
        s = next;
        i += 1;
    }
    assert(is_evaluation(quotient@, x, values));
    s
}

} // verus!
