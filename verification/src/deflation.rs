//! All the roots of a polynomial: one search per degree, each on the polynomial that
//! the search before it left.
use vstd::prelude::*;
use crate::horner::is_polynomial;
use crate::laws::search_lowers_degree;
use crate::newton::{degenerates, exhausts, find_root, finds, Search};
use crate::scalar::Scalar;

verus! {

/// The number of attempts that a pass gets where the caller names none.
pub const DEFAULT_ITERATIONS: usize = 20;

/// Why no polynomial or no full list of roots could be given.
#[derive(Debug)]
pub enum Error<S> {
    /// The field at this place of the coefficient list is not a number.
    BadCoefficient {
        /// The place of the field, counted from zero.
        index: usize,
    },
    /// A polynomial needs at least two coefficients.
    TooFewCoefficients {
        /// How many there were.
        count: usize,
    },
    /// A search used up its attempts without converging.
    NonConvergence {
        /// The roots that the searches before it found, in the order found.
        roots: Vec<S>,
    },
    /// A search reached an estimate at which the slope is zero.
    DegenerateDerivative {
        /// The roots that the searches before it found, in the order found.
        roots: Vec<S>,
    },
}

/// Pass `k` can find `roots[k]` on `history[k]` and leave `history[k + 1]`.
pub open spec fn pass_at<S: Scalar>(
    guess: S,
    budget: nat,
    roots: Seq<S>,
    history: Seq<Seq<S>>,
    k: int,
) -> bool {
    finds(history[k], guess, budget, roots[k], history[k + 1])
}

/// `history` can be the polynomials that finding `roots` goes through: it starts with
/// `p`, and each pass searches from `guess` on the polynomial that the pass before it
/// left, finds the next root and leaves the next polynomial.
pub open spec fn is_deflation<S: Scalar>(
    p: Seq<S>,
    guess: S,
    budget: nat,
    roots: Seq<S>,
    history: Seq<Seq<S>>,
) -> bool {
    &&& history.len() == roots.len() + 1
    &&& history[0] == p
    &&& forall|k: int| 0 <= k < roots.len() ==> #[trigger] pass_at(guess, budget, roots, history, k)
}

/// `roots` can be all the roots of `p`: one per degree, found pass by pass.
pub open spec fn solves<S: Scalar>(p: Seq<S>, guess: S, budget: nat, roots: Seq<S>) -> bool {
    &&& roots.len() + 1 == p.len()
    &&& exists|history: Seq<Seq<S>>| is_deflation(p, guess, budget, roots, history)
}

/// After `roots`, fewer than the degree of `p`, the next search can run out of
/// attempts.
pub open spec fn stalls<S: Scalar>(p: Seq<S>, guess: S, budget: nat, roots: Seq<S>) -> bool {
    &&& roots.len() + 1 < p.len()
    &&& exists|history: Seq<Seq<S>>| #[trigger]
        is_deflation(p, guess, budget, roots, history) && exhausts(
            history.last(),
            guess,
            budget,
        )
}

/// After `roots`, fewer than the degree of `p`, the next search can reach a zero
/// slope.
pub open spec fn breaks_down<S: Scalar>(p: Seq<S>, guess: S, budget: nat, roots: Seq<S>) -> bool {
    &&& roots.len() + 1 < p.len()
    &&& exists|history: Seq<Seq<S>>| #[trigger]
        is_deflation(p, guess, budget, roots, history) && degenerates(
            history.last(),
            guess,
            budget,
        )
}

/// Finds all the roots of `polynomial`, whose coefficients run from the highest power
/// down to the constant. Every pass starts from `guess` anew and has `iterations`
/// attempts; the root of one pass is not carried over as the guess of the next. The
/// first pass that fails ends the work, and the error carries the roots found up to
/// then.
pub fn newtons<S: Scalar>(polynomial: Vec<S>, guess: S, iterations: usize) -> (result: Result<
    Vec<S>,
    Error<S>,
>)
    ensures
        !is_polynomial(polynomial@) <==> result matches Err(Error::TooFewCoefficients { .. }),
        match result {
            Ok(roots) => roots.len() == polynomial.len() - 1 && solves(
                polynomial@,
                guess,
                iterations as nat,
                roots@,
            ),
            Err(Error::TooFewCoefficients { count }) => count == polynomial.len(),
            Err(Error::NonConvergence { roots }) => stalls(
                polynomial@,
                guess,
                iterations as nat,
                roots@,
            ),
            Err(Error::DegenerateDerivative { roots }) => breaks_down(
                polynomial@,
                guess,
                iterations as nat,
                roots@,
            ),
            Err(Error::BadCoefficient { .. }) => false,
        },
{
    if polynomial.len() < 2 {
        return Err(Error::TooFewCoefficients { count: polynomial.len() });
    }
    let degree = polynomial.len() - 1;
    let ghost p = polynomial@;
    let ghost mut history: Seq<Seq<S>> = seq![p];
    let mut working = polynomial;
    let mut roots: Vec<S> = Vec::with_capacity(degree);
    while roots.len() < degree
        invariant
            p == polynomial@,
            degree + 1 == p.len(),
            roots.len() <= degree,
            working.len() + roots.len() == p.len(),
            history.last() == working@,
            is_deflation(p, guess, iterations as nat, roots@, history),
        decreases degree - roots.len(),
    {
        match find_root(&working, guess, iterations) {
            Search::Found { root, quotient } => {
                proof {
                    let longer = history.push(quotient@);
                    let more = roots@.push(root);
                    assert forall|k: int| 0 <= k < more.len() implies #[trigger] pass_at(
                        guess,
                        iterations as nat,
                        more,
                        longer,
                        k,
                    ) by {
                        if k < roots.len() {
                            assert(pass_at(guess, iterations as nat, roots@, history, k));
                        }
                    }
                    search_lowers_degree(working@, guess, iterations as nat, root, quotient@);
                    history = longer;
                }
                roots.push(root);
                working = quotient;
            },
            Search::Exhausted => {
                return Err(Error::NonConvergence { roots });
            },
            Search::Degenerate => {
                return Err(Error::DegenerateDerivative { roots });
            },
        }
    }
    Ok(roots)
}

} // verus!
