//! Configuration, result and iteration control of the Levenberg–Marquardt solver.
//!
//! The solver's floating-point work (residuals, Jacobian, damped normal equations and
//! their Cholesky factorization) is done by the caller; each iteration it reports what
//! it observed as a [`StepOutcome`], and [`SolveProgress`] decides how the damping
//! changes, whether the solve goes on, and what the final result reports.

use vstd::prelude::*;

verus! {

/// Settings of a solve.
#[derive(Clone, Debug)]
pub struct LevenbergMarquardtConfig<Scalar> {
    /// The largest number of iterations that the solve performs.
    pub max_iterations: usize,
    /// The damping factor at the start of the solve.
    pub lambda_initial: Scalar,
    /// The factor by which the damping grows after a failed step and shrinks after an
    /// accepted one.
    pub lambda_factor: Scalar,
    /// An accepted step shorter than this ends the solve as converged.
    pub convergence_tol: Scalar,
    /// The perturbation used for the forward finite differences of the Jacobian.
    pub finite_difference_epsilon: Scalar,
}

/// What a solve reports.
#[derive(Clone, Debug)]
pub struct LevenbergMarquardtResult<Scalar> {
    /// Whether the solve stopped on an accepted step shorter than the tolerance.
    pub converged: bool,
    /// Half the squared norm of the residuals at the final parameters.
    pub cost: Scalar,
    /// The number of iterations performed.
    pub iterations: usize,
}

/// What one iteration of the solver observed.
#[derive(Debug, PartialEq, Eq, Structural, Clone, Copy)]
pub enum StepOutcome {
    /// The damped normal matrix has no Cholesky factorization.
    FactorizationFailed,
    /// The trial parameters do not lower the cost.
    Rejected,
    /// The trial parameters lower the cost and are taken; `small_step` tells whether the
    /// step is shorter than the convergence tolerance.
    Accepted { small_step: bool },
}

/// How the damping factor changes after an iteration.
#[derive(Debug, PartialEq, Eq, Structural, Clone, Copy)]
pub enum DampingUpdate {
    /// Multiply the damping by the configured factor.
    Increase,
    /// Divide the damping by the configured factor.
    Decrease,
}

/// An outcome that ends the solve as converged.
pub open spec fn ends_solve(outcome: StepOutcome) -> bool {
    outcome == StepOutcome::Accepted { small_step: true }
}

/// The damping update that follows an outcome: up after a failure or a rejected step,
/// down after an accepted step.
pub open spec fn damping_after(outcome: StepOutcome) -> DampingUpdate {
    match outcome {
        StepOutcome::Accepted { .. } => DampingUpdate::Decrease,
        _ => DampingUpdate::Increase,
    }
}

/// The state of a solve: iterations performed, the iteration limit, and whether it
/// has converged.
pub struct ProgressView {
    pub iteration: nat,
    pub max_iterations: nat,
    pub converged: bool,
}

/// The state at the start of a solve.
pub open spec fn start_view(max_iterations: nat) -> ProgressView {
    ProgressView { iteration: 0, max_iterations, converged: false }
}

/// The solve goes on while it has not converged and the limit is not reached.
pub open spec fn is_running_view(v: ProgressView) -> bool {
    !v.converged && v.iteration < v.max_iterations
}

/// The state after one more iteration with the given outcome.
pub open spec fn next_view(v: ProgressView, outcome: StepOutcome) -> ProgressView {
    ProgressView {
        iteration: v.iteration + 1,
        max_iterations: v.max_iterations,
        converged: ends_solve(outcome),
    }
}

/// The state reached by feeding `outcomes` to the solve in order while it runs; the
/// outcomes that come after it stops are not used.
pub open spec fn replay(v: ProgressView, outcomes: Seq<StepOutcome>) -> ProgressView
    decreases outcomes.len(),
{
    if outcomes.len() == 0 || !is_running_view(v) {
        v
    } else {
        replay(next_view(v, outcomes[0]), outcomes.drop_first())
    }
}

/// The position of the first outcome that ends the solve among the first `limit`
/// outcomes, if there is one.
pub open spec fn first_ending(outcomes: Seq<StepOutcome>, limit: nat) -> Option<nat>
    decreases outcomes.len(),
{
    if outcomes.len() == 0 || limit == 0 {
        None
    } else if ends_solve(outcomes[0]) {
        Some(0)
    } else {
        match first_ending(outcomes.drop_first(), (limit - 1) as nat) {
            Some(i) => Some(i + 1),
            None => None,
        }
    }
}

/// The iteration count that the result of a finished solve reports.
pub open spec fn reported_iterations(v: ProgressView) -> nat {
    if v.converged {
        v.iteration
    } else {
        v.max_iterations
    }
}

/// The smaller of two counts.
pub open spec fn min_count(a: nat, b: nat) -> nat {
    if a <= b {
        a
    } else {
        b
    }
}

/// The state that feeding `outcomes` to a solve leaves, described directly.
pub open spec fn stopping_view(
    iteration: nat,
    max_iterations: nat,
    outcomes: Seq<StepOutcome>,
) -> ProgressView {
    match first_ending(outcomes, (max_iterations - iteration) as nat) {
        Some(i) => ProgressView { iteration: iteration + i + 1, max_iterations, converged: true },
        None => ProgressView {
            iteration: iteration + min_count(outcomes.len(), (max_iterations - iteration) as nat),
            max_iterations,
            converged: false,
        },
    }
}

proof fn lemma_replay_from(v: ProgressView, outcomes: Seq<StepOutcome>)
    requires
        !v.converged,
        v.iteration <= v.max_iterations,
    ensures
        replay(v, outcomes) == stopping_view(v.iteration, v.max_iterations, outcomes),
    decreases outcomes.len(),
{
    let limit = (v.max_iterations - v.iteration) as nat;
    if outcomes.len() == 0 || !is_running_view(v) {
        assert(first_ending(outcomes, limit) is None);
    } else {
        let next = next_view(v, outcomes[0]);
        let rest = outcomes.drop_first();
        if ends_solve(outcomes[0]) {
            assert(first_ending(outcomes, limit) == Some(0nat));
            assert(replay(v, outcomes) == replay(next, rest));
            assert(!is_running_view(next));
        } else {
            lemma_replay_from(next, rest);
            assert((limit - 1) as nat == (next.max_iterations - next.iteration) as nat);
            assert(replay(v, outcomes) == replay(next, rest));
        }
    }
}

/// A solve stops at the first accepted step shorter than the tolerance, provided it
/// comes within the first `max_iterations` iterations, and then has performed exactly
/// the iterations up to and including it; otherwise it performs one iteration per
/// outcome until `max_iterations` is reached, without converging.
pub proof fn lemma_solve_stops_at_first_small_step(max_iterations: nat, outcomes: Seq<StepOutcome>)
    ensures
        replay(start_view(max_iterations), outcomes) == stopping_view(0, max_iterations, outcomes),
{
    lemma_replay_from(start_view(max_iterations), outcomes);
}

/// A solve never performs more than `max_iterations` iterations: once `max_iterations`
/// outcomes are available it has stopped.
pub proof fn lemma_solve_is_bounded(max_iterations: nat, outcomes: Seq<StepOutcome>)
    ensures
        replay(start_view(max_iterations), outcomes).iteration <= max_iterations,
        outcomes.len() >= max_iterations ==> !is_running_view(
            replay(start_view(max_iterations), outcomes),
        ),
{
    lemma_solve_stops_at_first_small_step(max_iterations, outcomes);
    lemma_first_ending_bounds(outcomes, max_iterations);
}

proof fn lemma_first_ending_bounds(outcomes: Seq<StepOutcome>, limit: nat)
    ensures
        first_ending(outcomes, limit) matches Some(i) ==> i < limit && i < outcomes.len()
            && ends_solve(outcomes[i as int]),
    decreases outcomes.len(),
{
    if outcomes.len() > 0 && limit > 0 && !ends_solve(outcomes[0]) {
        lemma_first_ending_bounds(outcomes.drop_first(), (limit - 1) as nat);
    }
}

/// The iterations that a finished solve reports never exceed the limit, and equal it
/// when the solve did not converge.
pub proof fn lemma_reported_iterations_bounded(v: ProgressView)
    requires
        v.iteration <= v.max_iterations,
        !is_running_view(v),
    ensures
        reported_iterations(v) <= v.max_iterations,
        !v.converged ==> reported_iterations(v) == v.max_iterations == v.iteration,
{
}

/// A converged solve reports the iterations it performed, up to and including the
/// small accepted step; a solve that did not converge reports the limit.
pub proof fn lemma_reported_iterations_exact(v: ProgressView)
    ensures
        v.converged ==> reported_iterations(v) == v.iteration,
        !v.converged ==> reported_iterations(v) == v.max_iterations,
{
}

/// Feeding outcomes to a solve from the start: when it converges, the reported count is
/// one more than the position of the first small accepted step; otherwise it is the limit.
pub proof fn lemma_reported_iterations_of_replay(max_iterations: nat, outcomes: Seq<StepOutcome>)
    ensures
        ({
            let v = replay(start_view(max_iterations), outcomes);
            &&& v.converged ==> first_ending(outcomes, max_iterations) is Some
                && reported_iterations(v) == first_ending(outcomes, max_iterations)->Some_0 + 1
            &&& v.converged ==> reported_iterations(v) <= max_iterations
            &&& !v.converged ==> reported_iterations(v) == max_iterations
        }),
{
    lemma_solve_stops_at_first_small_step(max_iterations, outcomes);
    lemma_first_ending_bounds(outcomes, max_iterations);
}

/// Iteration control of a solve.
pub struct SolveProgress {
    iteration: usize,
    max_iterations: usize,
    converged: bool,
}

impl View for SolveProgress {
    type V = ProgressView;

    closed spec fn view(&self) -> ProgressView {
        ProgressView {
            iteration: self.iteration as nat,
            max_iterations: self.max_iterations as nat,
            converged: self.converged,
        }
    }
}

impl SolveProgress {
    /// What every state of a solve satisfies: it never runs past the limit, and it
    /// converges only on an iteration it performed.
    pub open spec fn wf(&self) -> bool {
        &&& self@.iteration <= self@.max_iterations
        &&& self@.converged ==> self@.iteration >= 1
    }

    /// Starts a solve that performs at most `max_iterations` iterations.
    pub fn new(max_iterations: usize) -> (p: Self)
        ensures
            p@ == start_view(max_iterations as nat),
            p.wf(),
    {
        SolveProgress { iteration: 0, max_iterations, converged: false }
    }

    /// Whether the solve performs another iteration.
    pub fn is_running(&self) -> (r: bool)
        ensures
            r == is_running_view(self@),
    {
        !self.converged && self.iteration < self.max_iterations
    }

    /// Records the outcome of the current iteration and returns how the damping changes.
    pub fn record(&mut self, outcome: StepOutcome) -> (update: DampingUpdate)
        requires
            old(self).wf(),
            is_running_view(old(self)@),
        ensures
            final(self)@ == next_view(old(self)@, outcome),
            final(self).wf(),
            update == damping_after(outcome),
    {
        self.iteration = self.iteration + 1;
        match outcome {
            StepOutcome::FactorizationFailed => {
                self.converged = false;
                DampingUpdate::Increase
            },
            StepOutcome::Rejected => {
                self.converged = false;
                DampingUpdate::Increase
            },
            StepOutcome::Accepted { small_step } => {
                self.converged = small_step;
                DampingUpdate::Decrease
            },
        }
    }

    /// The result of a finished solve whose final cost is `cost`: converged with the
    /// number of iterations performed, or not converged after `max_iterations`.
    pub fn finish<Scalar>(&self, cost: Scalar) -> (r: LevenbergMarquardtResult<Scalar>)
        requires
            !is_running_view(self@),
        ensures
            r.converged == self@.converged,
            r.cost == cost,
            r.iterations == reported_iterations(self@),
            r.converged ==> r.iterations == self@.iteration,
            !r.converged ==> r.iterations == self@.max_iterations,
    {
        let iterations = if self.converged {
            self.iteration
        } else {
            self.max_iterations
        };
        LevenbergMarquardtResult { converged: self.converged, cost, iterations }
    }
}

} // verus!
