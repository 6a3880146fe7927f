//! What holds of the root finder whatever the number type does.
use vstd::prelude::*;
use crate::deflation::{is_deflation, pass_at, solves};
use crate::newton::finds;
use crate::scalar::Scalar;

verus! {

/// A search that finds a root lowers the degree by one: the quotient that it leaves
/// has one coefficient fewer than the polynomial that it searched.
pub proof fn search_lowers_degree<S: Scalar>(
    p: Seq<S>,
    guess: S,
    budget: nat,
    root: S,
    quotient: Seq<S>,
)
    requires
        finds(p, guess, budget, root, quotient),
    ensures
        quotient.len() + 1 == p.len(),
{
}

/// Every pass lowers the degree by one: after `k` passes the polynomial at hand has
/// `k` coefficients fewer than the one that the work started with.
pub proof fn each_pass_lowers_degree<S: Scalar>(
    p: Seq<S>,
    guess: S,
    budget: nat,
    roots: Seq<S>,
    history: Seq<Seq<S>>,
    k: int,
)
    requires
        is_deflation(p, guess, budget, roots, history),
        0 <= k <= roots.len(),
    ensures
        history[k].len() + k == p.len(),
    decreases k,
{
    if k > 0 {
        each_pass_lowers_degree(p, guess, budget, roots, history, k - 1);
        assert(pass_at(guess, budget, roots, history, k - 1));
    }
}

/// On full success a polynomial of degree `n` has given exactly `n` roots, and the
/// last pass has left a constant.
pub proof fn full_success_counts_the_degree<S: Scalar>(
    p: Seq<S>,
    guess: S,
    budget: nat,
    roots: Seq<S>,
    history: Seq<Seq<S>>,
)
    requires
        solves(p, guess, budget, roots),
        is_deflation(p, guess, budget, roots, history),
    ensures
        roots.len() == p.len() - 1,
        history.last().len() == 1,
{
    each_pass_lowers_degree(p, guess, budget, roots, history, roots.len() as int);
}

/// A polynomial of degree one gives its one root in a single pass, which searches the
/// polynomial itself: nothing is deflated before it, and what it leaves is a
/// constant.
pub proof fn linear_polynomial_takes_one_pass<S: Scalar>(
    p: Seq<S>,
    guess: S,
    budget: nat,
    roots: Seq<S>,
)
    requires
        p.len() == 2,
        solves(p, guess, budget, roots),
    ensures
        roots.len() == 1,
        exists|constant: Seq<S>| #[trigger]
            finds(p, guess, budget, roots[0], constant) && constant.len() == 1,
{
    let history = choose|history: Seq<Seq<S>>| is_deflation(p, guess, budget, roots, history);
    assert(pass_at(guess, budget, roots, history, 0));
}

} // verus!
