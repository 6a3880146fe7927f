//! Where the arithmetic is pure, the root finder is a function: what a contract of
//! this library says can come out is then the one thing that does.
use vstd::prelude::*;
use crate::deflation::{breaks_down, is_deflation, pass_at, solves, stalls};
use crate::horner::{horner_at, is_evaluation, is_slope, step_product};
use crate::newton::{
    converges_at, degenerates, degenerates_at, divides, exhausts, finds, leads, moves, moves_at,
    newton_update,
};
use crate::scalar::{
    arithmetic_is_pure, difference_is, negligible_is, products_are_unique, quotient_is,
    sums_are_unique, zero_is, Scalar,
};

verus! {

/// Where adding and multiplying are functions, so is Horner's scheme: evaluating the
/// same polynomial at the same point twice gives the same partial values, and so the
/// same remainder and the same quotient.
pub proof fn evaluation_is_repeatable<S: Scalar>(p: Seq<S>, x: S, first: Seq<S>, second: Seq<S>)
    requires
        sums_are_unique::<S>(),
        products_are_unique::<S>(),
        is_evaluation(p, x, first),
        is_evaluation(p, x, second),
    ensures
        first == second,
{
    assert forall|i: int| 0 <= i < p.len() implies first[i] == second[i] by {
        lemma_same_up_to(p, x, first, second, i);
    }
}

/// Two evaluations of the same polynomial at the same point agree at place `i`.
proof fn lemma_same_up_to<S: Scalar>(p: Seq<S>, x: S, first: Seq<S>, second: Seq<S>, i: int)
    requires
        sums_are_unique::<S>(),
        products_are_unique::<S>(),
        is_evaluation(p, x, first),
        is_evaluation(p, x, second),
        0 <= i < p.len(),
    ensures
        first[i] == second[i],
    decreases i,
{
    if i > 0 {
        lemma_same_up_to(p, x, first, second, i - 1);
        assert(horner_at(p, x, first, i));
        assert(horner_at(p, x, second, i));
        step_product(first[i - 1], x, p[i], first[i]);
        step_product(second[i - 1], x, p[i], second[i]);
    }
}

/// Where adding and multiplying are functions, a division leaves one quotient and
/// one remainder.
pub proof fn division_is_repeatable<S: Scalar>(
    p: Seq<S>,
    x: S,
    first: (Seq<S>, S),
    second: (Seq<S>, S),
)
    requires
        sums_are_unique::<S>(),
        products_are_unique::<S>(),
        divides(p, x, first.0, first.1),
        divides(p, x, second.0, second.1),
    ensures
        first == second,
{
    let a = first.0.push(first.1);
    let b = second.0.push(second.1);
    evaluation_is_repeatable(p, x, a, b);
    assert(second.0 =~= b.drop_last());
    assert(second.1 == b.last());
}

/// Where adding and multiplying are functions, a quotient has one slope.
pub proof fn slope_is_repeatable<S: Scalar>(d: Seq<S>, x: S, first: S, second: S)
    requires
        sums_are_unique::<S>(),
        products_are_unique::<S>(),
        is_slope(d, x, first),
        is_slope(d, x, second),
    ensures
        first == second,
{
    let a = choose|values: Seq<S>| #[trigger]
        is_evaluation(d, x, values) && values.len() > 0 && values.last() == first;
    let b = choose|values: Seq<S>| #[trigger]
        is_evaluation(d, x, values) && values.len() > 0 && values.last() == second;
    evaluation_is_repeatable(d, x, a, b);
}

/// What one attempt can lead to.
pub enum Step<S> {
    /// The estimate passed the convergence test and left this quotient.
    Converged(Seq<S>),
    /// Newton's update gave this estimate.
    Moved(S),
    /// The slope was zero.
    Degenerate,
}

/// An attempt on `p` at `x` can lead to `step`.
pub open spec fn attempt_gives<S: Scalar>(p: Seq<S>, x: S, step: Step<S>) -> bool {
    match step {
        Step::Converged(quotient) => converges_at(p, x, quotient),
        Step::Moved(next) => moves(p, x, next),
        Step::Degenerate => degenerates_at(p, x),
    }
}

/// The division, and where the attempt got that far the slope, that `step` rests on.
proof fn step_rests_on<S: Scalar>(p: Seq<S>, x: S, step: Step<S>) -> (w: (Seq<S>, S, S))
    requires
        attempt_gives(p, x, step),
    ensures
        divides(p, x, w.0, w.1),
        match step {
            Step::Converged(quotient) => quotient == w.0 && negligible_is(w.1, true),
            Step::Moved(next) => {
                &&& negligible_is(w.1, false)
                &&& is_slope(w.0, x, w.2)
                &&& zero_is(w.2, false)
                &&& newton_update(x, w.1, w.2, next)
            },
            Step::Degenerate => {
                &&& negligible_is(w.1, false)
                &&& is_slope(w.0, x, w.2)
                &&& zero_is(w.2, true)
            },
        },
{
    match step {
        Step::Converged(quotient) => {
            let remainder = choose|remainder: S| #[trigger]
                divides(p, x, quotient, remainder) && negligible_is(remainder, true);
            (quotient, remainder, remainder)
        },
        Step::Moved(next) => {
            choose|quotient: Seq<S>, remainder: S, slope: S|
                #![trigger
                    divides(p, x, quotient, remainder),
                    newton_update(x, remainder, slope, next),
                ]
                {
                    &&& divides(p, x, quotient, remainder)
                    &&& negligible_is(remainder, false)
                    &&& is_slope(quotient, x, slope)
                    &&& zero_is(slope, false)
                    &&& newton_update(x, remainder, slope, next)
                }
        },
        Step::Degenerate => {
            choose|quotient: Seq<S>, remainder: S, slope: S|
                #![trigger divides(p, x, quotient, remainder), zero_is(slope, true)]
                {
                    &&& divides(p, x, quotient, remainder)
                    &&& negligible_is(remainder, false)
                    &&& is_slope(quotient, x, slope)
                    &&& zero_is(slope, true)
                }
        },
    }
}

/// Where the arithmetic is pure, an attempt leads to one thing only.
pub proof fn attempt_is_repeatable<S: Scalar>(p: Seq<S>, x: S, first: Step<S>, second: Step<S>)
    requires
        arithmetic_is_pure::<S>(),
        attempt_gives(p, x, first),
        attempt_gives(p, x, second),
    ensures
        first == second,
{
    let a = step_rests_on(p, x, first);
    let b = step_rests_on(p, x, second);
    division_is_repeatable(p, x, (a.0, a.1), (b.0, b.1));
    if !(first is Converged) && !(second is Converged) {
        slope_is_repeatable(a.0, x, a.2, b.2);
        if let Step::Moved(next_first) = first {
            if let Step::Moved(next_second) = second {
                let s1 = choose|shift: S|
                    quotient_is(a.1, a.2, shift) && difference_is(x, shift, next_first);
                let s2 = choose|shift: S|
                    quotient_is(b.1, b.2, shift) && difference_is(x, shift, next_second);
                assert(s1 == s2);
            }
        }
    }
}

/// Where the arithmetic is pure, two runs of attempts from the same guess go through
/// the same estimates.
pub proof fn paths_agree<S: Scalar>(p: Seq<S>, guess: S, first: Seq<S>, second: Seq<S>, j: int)
    requires
        arithmetic_is_pure::<S>(),
        leads(p, guess, first),
        leads(p, guess, second),
        0 <= j < first.len(),
        j < second.len(),
    ensures
        first[j] == second[j],
    decreases j,
{
    if j > 0 {
        paths_agree(p, guess, first, second, j - 1);
        assert(moves_at(p, first, j));
        assert(moves_at(p, second, j));
        attempt_is_repeatable(p, first[j - 1], Step::Moved(first[j]), Step::Moved(second[j]));
    }
}

/// How the search for one root can end.
pub enum Ending<S> {
    /// With this root and this quotient.
    Found(S, Seq<S>),
    /// Out of attempts.
    Exhausted,
    /// At a zero slope.
    Degenerate,
}

/// A search on `p` from `guess` with `budget` attempts can end in `ending`.
pub open spec fn search_gives<S: Scalar>(
    p: Seq<S>,
    guess: S,
    budget: nat,
    ending: Ending<S>,
) -> bool {
    match ending {
        Ending::Found(root, quotient) => finds(p, guess, budget, root, quotient),
        Ending::Exhausted => exhausts(p, guess, budget),
        Ending::Degenerate => degenerates(p, guess, budget),
    }
}

/// The estimates that `ending` rests on.
proof fn ending_rests_on<S: Scalar>(p: Seq<S>, guess: S, budget: nat, ending: Ending<S>) -> (w: Seq<
    S,
>)
    requires
        search_gives(p, guess, budget, ending),
    ensures
        leads(p, guess, w),
        match ending {
            Ending::Found(root, quotient) => w.len() <= budget && w.last() == root
                && attempt_gives(p, w.last(), Step::Converged(quotient)),
            Ending::Exhausted => w.len() == budget + 1,
            Ending::Degenerate => w.len() <= budget && attempt_gives(
                p,
                w.last(),
                Step::<S>::Degenerate,
            ),
        },
{
    match ending {
        Ending::Found(root, quotient) => {
            choose|estimates: Seq<S>| #[trigger]
                leads(p, guess, estimates) && estimates.len() <= budget && estimates.last() == root
                    && converges_at(p, root, quotient)
        },
        Ending::Exhausted => {
            choose|estimates: Seq<S>| #[trigger]
                leads(p, guess, estimates) && estimates.len() == budget + 1
        },
        Ending::Degenerate => {
            choose|estimates: Seq<S>| #[trigger]
                leads(p, guess, estimates) && estimates.len() <= budget && degenerates_at(
                    p,
                    estimates.last(),
                )
        },
    }
}

/// No run of attempts goes on past an estimate at which the attempt did not move.
proof fn lemma_run_ends<S: Scalar>(p: Seq<S>, guess: S, run: Seq<S>, last: Step<S>, other: Seq<S>)
    requires
        arithmetic_is_pure::<S>(),
        leads(p, guess, run),
        attempt_gives(p, run.last(), last),
        !(last is Moved),
        leads(p, guess, other),
    ensures
        other.len() <= run.len(),
{
    if other.len() > run.len() {
        let k = run.len() as int;
        paths_agree(p, guess, run, other, k - 1);
        assert(moves_at(p, other, k));
        attempt_is_repeatable(p, run.last(), last, Step::Moved(other[k]));
    }
}

/// Where the arithmetic is pure, a search ends in one way only: it finds one root
/// with one quotient, or it runs out of attempts, or it meets a zero slope.
pub proof fn search_is_repeatable<S: Scalar>(
    p: Seq<S>,
    guess: S,
    budget: nat,
    first: Ending<S>,
    second: Ending<S>,
)
    requires
        arithmetic_is_pure::<S>(),
        search_gives(p, guess, budget, first),
        search_gives(p, guess, budget, second),
    ensures
        first == second,
{
    let a = ending_rests_on(p, guess, budget, first);
    let b = ending_rests_on(p, guess, budget, second);
    let step_a = match first {
        Ending::Found(_, quotient) => Step::Converged(quotient),
        _ => Step::Degenerate,
    };
    let step_b = match second {
        Ending::Found(_, quotient) => Step::Converged(quotient),
        _ => Step::Degenerate,
    };
    if !(first is Exhausted) {
        lemma_run_ends(p, guess, a, step_a, b);
    }
    if !(second is Exhausted) {
        lemma_run_ends(p, guess, b, step_b, a);
    }
    if !(first is Exhausted) && !(second is Exhausted) {
        paths_agree(p, guess, a, b, a.len() - 1);
        attempt_is_repeatable(p, a.last(), step_a, step_b);
    }
}

/// How the search for all the roots can end.
pub enum Outcome<S> {
    /// With all the roots.
    Roots(Seq<S>),
    /// After these roots, out of attempts.
    NonConvergence(Seq<S>),
    /// After these roots, at a zero slope.
    DegenerateDerivative(Seq<S>),
}

impl<S> Outcome<S> {
    /// The roots that were found, all of them or those before the failure.
    pub open spec fn roots(self) -> Seq<S> {
        match self {
            Outcome::Roots(roots) => roots,
            Outcome::NonConvergence(roots) => roots,
            Outcome::DegenerateDerivative(roots) => roots,
        }
    }
}

/// Finding the roots of `p`, each pass from `guess` with `budget` attempts, can end
/// in `outcome`.
pub open spec fn newtons_gives<S: Scalar>(
    p: Seq<S>,
    guess: S,
    budget: nat,
    outcome: Outcome<S>,
) -> bool {
    match outcome {
        Outcome::Roots(roots) => solves(p, guess, budget, roots),
        Outcome::NonConvergence(roots) => stalls(p, guess, budget, roots),
        Outcome::DegenerateDerivative(roots) => breaks_down(p, guess, budget, roots),
    }
}

/// The polynomials that `outcome` went through.
proof fn outcome_rests_on<S: Scalar>(
    p: Seq<S>,
    guess: S,
    budget: nat,
    outcome: Outcome<S>,
) -> (history: Seq<Seq<S>>)
    requires
        newtons_gives(p, guess, budget, outcome),
    ensures
        is_deflation(p, guess, budget, outcome.roots(), history),
        match outcome {
            Outcome::Roots(roots) => roots.len() + 1 == p.len(),
            Outcome::NonConvergence(roots) => roots.len() + 1 < p.len() && search_gives(
                history.last(),
                guess,
                budget,
                Ending::<S>::Exhausted,
            ),
            Outcome::DegenerateDerivative(roots) => roots.len() + 1 < p.len() && search_gives(
                history.last(),
                guess,
                budget,
                Ending::<S>::Degenerate,
            ),
        },
{
    match outcome {
        Outcome::Roots(roots) => {
            choose|history: Seq<Seq<S>>| is_deflation(p, guess, budget, roots, history)
        },
        Outcome::NonConvergence(roots) => {
            choose|history: Seq<Seq<S>>| #[trigger]
                is_deflation(p, guess, budget, roots, history) && exhausts(
                    history.last(),
                    guess,
                    budget,
                )
        },
        Outcome::DegenerateDerivative(roots) => {
            choose|history: Seq<Seq<S>>| #[trigger]
                is_deflation(p, guess, budget, roots, history) && degenerates(
                    history.last(),
                    guess,
                    budget,
                )
        },
    }
}

/// Where the arithmetic is pure, two deflations of the same polynomial find the same
/// roots and go through the same polynomials, as far as both go.
pub proof fn deflations_agree<S: Scalar>(
    p: Seq<S>,
    guess: S,
    budget: nat,
    first: (Seq<S>, Seq<Seq<S>>),
    second: (Seq<S>, Seq<Seq<S>>),
    k: int,
)
    requires
        arithmetic_is_pure::<S>(),
        is_deflation(p, guess, budget, first.0, first.1),
        is_deflation(p, guess, budget, second.0, second.1),
        0 <= k <= first.0.len(),
        k <= second.0.len(),
    ensures
        first.1[k] == second.1[k],
        k > 0 ==> first.0[k - 1] == second.0[k - 1],
    decreases k,
{
    if k > 0 {
        deflations_agree(p, guess, budget, first, second, k - 1);
        assert(pass_at(guess, budget, first.0, first.1, k - 1));
        assert(pass_at(guess, budget, second.0, second.1, k - 1));
        search_is_repeatable(
            first.1[k - 1],
            guess,
            budget,
            Ending::Found(first.0[k - 1], first.1[k]),
            Ending::Found(second.0[k - 1], second.1[k]),
        );
    }
}

/// An outcome with fewer roots than another is impossible beside it.
proof fn lemma_no_shorter_outcome<S: Scalar>(
    p: Seq<S>,
    guess: S,
    budget: nat,
    shorter: Outcome<S>,
    longer: Outcome<S>,
)
    requires
        arithmetic_is_pure::<S>(),
        newtons_gives(p, guess, budget, shorter),
        newtons_gives(p, guess, budget, longer),
    ensures
        shorter.roots().len() >= longer.roots().len(),
{
    let a = outcome_rests_on(p, guess, budget, shorter);
    let b = outcome_rests_on(p, guess, budget, longer);
    let k = shorter.roots().len() as int;
    if k < longer.roots().len() {
        deflations_agree(p, guess, budget, (shorter.roots(), a), (longer.roots(), b), k);
        assert(pass_at(guess, budget, longer.roots(), b, k));
        let found = Ending::Found(longer.roots()[k], b[k + 1]);
        if shorter is NonConvergence {
            search_is_repeatable(a[k], guess, budget, Ending::Exhausted, found);
        } else if shorter is DegenerateDerivative {
            search_is_repeatable(a[k], guess, budget, Ending::Degenerate, found);
        }
    }
}

/// Where the arithmetic is pure, the search for all the roots ends in one way only:
/// with one list of roots, or with one kind of failure after one list of roots.
pub proof fn newtons_is_repeatable<S: Scalar>(
    p: Seq<S>,
    guess: S,
    budget: nat,
    first: Outcome<S>,
    second: Outcome<S>,
)
    requires
        arithmetic_is_pure::<S>(),
        newtons_gives(p, guess, budget, first),
        newtons_gives(p, guess, budget, second),
    ensures
        first == second,
{
    lemma_no_shorter_outcome(p, guess, budget, first, second);
    lemma_no_shorter_outcome(p, guess, budget, second, first);
    let a = outcome_rests_on(p, guess, budget, first);
    let b = outcome_rests_on(p, guess, budget, second);
    let n = first.roots().len() as int;
    assert forall|k: int| 0 <= k < n implies first.roots()[k] == second.roots()[k] by {
        deflations_agree(p, guess, budget, (first.roots(), a), (second.roots(), b), k + 1);
    }
    assert(first.roots() =~= second.roots());
    deflations_agree(p, guess, budget, (first.roots(), a), (second.roots(), b), n);
    if first is NonConvergence && second is DegenerateDerivative {
        search_is_repeatable(a[n], guess, budget, Ending::Exhausted, Ending::Degenerate);
    }
    if first is DegenerateDerivative && second is NonConvergence {
        search_is_repeatable(a[n], guess, budget, Ending::Degenerate, Ending::Exhausted);
    }
}

} // verus!
