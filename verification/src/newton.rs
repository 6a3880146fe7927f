//! Newton's method on one polynomial: single attempts, and the search for one root
//! within a budget of attempts.
use vstd::prelude::*;
use crate::horner::{evaluate, is_evaluation, is_polynomial, is_slope, slope};
use crate::scalar::{difference_is, negligible_is, quotient_is, zero_is, Scalar};

verus! {

/// Dividing `p` by the linear factor of `x` can leave `quotient` and `remainder`.
pub open spec fn divides<S: Scalar>(p: Seq<S>, x: S, quotient: Seq<S>, remainder: S) -> bool {
    is_evaluation(p, x, quotient.push(remainder))
}

/// `next` can come out of Newton's update of `x`: `x - remainder / slope`.
pub open spec fn newton_update<S: Scalar>(x: S, remainder: S, slope: S, next: S) -> bool {
    exists|shift: S| quotient_is(remainder, slope, shift) && difference_is(x, shift, next)
}

/// An attempt at `x` can converge: the remainder passes the convergence test, and
/// `quotient` is `p` with the root's linear factor divided out.
pub open spec fn converges_at<S: Scalar>(p: Seq<S>, x: S, quotient: Seq<S>) -> bool {
    exists|remainder: S| #[trigger]
        divides(p, x, quotient, remainder) && negligible_is(remainder, true)
}

/// An attempt at `x` can move on to `next`: the remainder fails the convergence test,
/// the slope is not zero, and `next` is Newton's update of `x`.
pub open spec fn moves<S: Scalar>(p: Seq<S>, x: S, next: S) -> bool {
    exists|quotient: Seq<S>, remainder: S, slope: S|
        #![trigger divides(p, x, quotient, remainder), newton_update(x, remainder, slope, next)]
        {
            &&& divides(p, x, quotient, remainder)
            &&& negligible_is(remainder, false)
            &&& is_slope(quotient, x, slope)
            &&& zero_is(slope, false)
            &&& newton_update(x, remainder, slope, next)
        }
}

/// An attempt at `x` can get stuck: the remainder fails the convergence test and the
/// slope is zero.
pub open spec fn degenerates_at<S: Scalar>(p: Seq<S>, x: S) -> bool {
    exists|quotient: Seq<S>, remainder: S, slope: S|
        #![trigger divides(p, x, quotient, remainder), zero_is(slope, true)]
        {
            &&& divides(p, x, quotient, remainder)
            &&& negligible_is(remainder, false)
            &&& is_slope(quotient, x, slope)
            &&& zero_is(slope, true)
        }
}

/// What one attempt at an estimate led to.
#[derive(Debug)]
pub enum Attempt<S> {
    /// The estimate is a root; the buffer holds the deflated polynomial.
    Converged,
    /// Newton's update gave this new estimate.
    Moved(S),
    /// The slope at the estimate is zero.
    Degenerate,
}

/// Makes one attempt at the estimate `x`: evaluates `polynomial` there, tests the
/// remainder, and, unless it is negligible, computes the slope and Newton's update.
/// `buffer` is scratch space; after a converged attempt it holds the quotient.
pub fn attempt<S: Scalar>(polynomial: &Vec<S>, x: S, buffer: &mut Vec<S>) -> (outcome: Attempt<S>)
    requires
        is_polynomial(polynomial@),
    ensures
        match outcome {
            Attempt::Converged => converges_at(polynomial@, x, final(buffer)@),
            Attempt::Moved(next) => moves(polynomial@, x, next),
            Attempt::Degenerate => degenerates_at(polynomial@, x),
        },
{
    evaluate(polynomial, x, buffer);
    let ghost values = buffer@;
    let remainder = buffer.pop().unwrap();
    assert(values =~= buffer@.push(remainder));
    assert(divides(polynomial@, x, buffer@, remainder));
    if remainder.is_negligible() {
        return Attempt::Converged;
    }
    let slope = slope(buffer, x);
    if slope.is_zero() {
        assert(divides(polynomial@, x, buffer@, remainder) && zero_is(slope, true));
        return Attempt::Degenerate;
    }
    let shift = remainder.over(slope);
    let next = x.minus(shift);
    assert(quotient_is(remainder, slope, shift) && difference_is(x, shift, next));
    assert(divides(polynomial@, x, buffer@, remainder) && newton_update(x, remainder, slope, next));
    Attempt::Moved(next)
}

/// Each estimate of `estimates` but the first can be Newton's update of the one before.
pub open spec fn is_path<S: Scalar>(p: Seq<S>, estimates: Seq<S>) -> bool {
    forall|j: int| 0 < j < estimates.len() ==> #[trigger] moves_at(p, estimates, j)
}

/// Estimate `j` can be Newton's update of estimate `j - 1`.
pub open spec fn moves_at<S: Scalar>(p: Seq<S>, estimates: Seq<S>, j: int) -> bool {
    moves(p, estimates[j - 1], estimates[j])
}

/// `estimates` is a run of failed attempts on `p` from `guess`: it starts there, and
/// each attempt moved on to the next estimate.
pub open spec fn leads<S: Scalar>(p: Seq<S>, guess: S, estimates: Seq<S>) -> bool {
    &&& estimates.len() > 0
    &&& estimates[0] == guess
    &&& is_path(p, estimates)
}

/// A search from `guess` can find `root` within `budget` attempts, and leave
/// `quotient` as the deflated polynomial.
pub open spec fn finds<S: Scalar>(
    p: Seq<S>,
    guess: S,
    budget: nat,
    root: S,
    quotient: Seq<S>,
) -> bool {
    exists|estimates: Seq<S>| #[trigger]
        leads(p, guess, estimates) && estimates.len() <= budget && estimates.last() == root
            && converges_at(p, root, quotient)
}

/// A search from `guess` can use up `budget` attempts, none of which converges.
pub open spec fn exhausts<S: Scalar>(p: Seq<S>, guess: S, budget: nat) -> bool {
    exists|estimates: Seq<S>| #[trigger]
        leads(p, guess, estimates) && estimates.len() == budget + 1
}

/// A search from `guess` can, within `budget` attempts, reach an estimate at which
/// the slope is zero.
pub open spec fn degenerates<S: Scalar>(p: Seq<S>, guess: S, budget: nat) -> bool {
    exists|estimates: Seq<S>| #[trigger]
        leads(p, guess, estimates) && estimates.len() <= budget && degenerates_at(
            p,
            estimates.last(),
        )
}

/// How the search for one root ended.
#[derive(Debug)]
pub enum Search<S> {
    /// An estimate passed the convergence test.
    Found {
        /// The estimate that passed.
        root: S,
        /// The polynomial with the root's linear factor divided out.
        quotient: Vec<S>,
    },
    /// The budget of attempts ran out.
    Exhausted,
    /// The slope was zero at some estimate.
    Degenerate,
}

/// Searches one root of `polynomial`: up to `iterations` attempts, the first at
/// `guess`, each further one at Newton's update of the estimate before. The scratch
/// buffer is cleared and used again from attempt to attempt.
pub fn find_root<S: Scalar>(polynomial: &Vec<S>, guess: S, iterations: usize) -> (outcome: Search<
    S,
>)
    requires
        is_polynomial(polynomial@),
    ensures
        match outcome {
            Search::Found { root, quotient } => finds(
                polynomial@,
                guess,
                iterations as nat,
                root,
                quotient@,
            ),
            Search::Exhausted => exhausts(polynomial@, guess, iterations as nat),
            Search::Degenerate => degenerates(polynomial@, guess, iterations as nat),
        },
{
    let mut buffer: Vec<S> = Vec::with_capacity(polynomial.len());
    let mut root = guess;
    let mut made: usize = 0;
    let ghost mut estimates: Seq<S> = seq![guess];
    while made < iterations
        invariant
            is_polynomial(polynomial@),
            made <= iterations,
            estimates.len() == made + 1,
            estimates.last() == root,
            leads(polynomial@, guess, estimates),
        decreases iterations - made,
    {
        match attempt(polynomial, root, &mut buffer) {
            Attempt::Converged => {
                return Search::Found { root, quotient: buffer };
            },
            Attempt::Degenerate => {
                return Search::Degenerate;
            },
            Attempt::Moved(next) => {
                proof {
                    let longer = estimates.push(next);
                    assert forall|j: int| 0 < j < longer.len() implies #[trigger] moves_at(
                        polynomial@,
                        longer,
                        j,
                    ) by {
                        if j < estimates.len() {
                            assert(moves_at(polynomial@, estimates, j));
                        }
                    }
                    estimates = longer;
                }
                root = next;
                made += 1;
            },
        }
    }
    Search::Exhausted
}

} // verus!
