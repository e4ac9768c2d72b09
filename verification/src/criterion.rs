use vstd::prelude::*;
use crate::evaluation::Evaluation;
use crate::base::{Solution, ScoreFn, fits, same};

verus! {

/// A value function, a penalty function and a direction: together they reduce
/// a candidate to one comparable number.
pub struct Criterion<V, Q> {
    pub value_fn: V,
    pub penalty_fn: Q,
    pub maximize: bool,
}

/// The aggregate of an evaluation, signed so that larger is better in the
/// chosen direction.
pub open spec fn merit_of(maximize: bool, e: Evaluation) -> int {
    if maximize {
        e.aggregate()
    } else {
        -e.aggregate()
    }
}

/// `a` displaces `b` as the best candidate seen: a feasible record beats an
/// infeasible one, and between two of the same feasibility the strictly
/// better merit wins.
pub open spec fn supersedes_of(maximize: bool, a: Evaluation, b: Evaluation) -> bool {
    if a.feasible == b.feasible {
        merit_of(maximize, a) > merit_of(maximize, b)
    } else {
        a.feasible
    }
}

impl<V, Q> Criterion<V, Q> {
    /// A criterion of the two functions that maximizes their sum, or
    /// minimizes it.
    pub fn new(penalty_fn: Q, value_fn: V, maximize: bool) -> (c: Self)
        ensures
            c.value_fn == value_fn,
            c.penalty_fn == penalty_fn,
            c.maximize == maximize,
    {
        Criterion { value_fn, penalty_fn, maximize }
    }

    /// What an evaluation of `payload` writes.
    pub open spec fn measured<S: Solution>(&self, problem: &S::Problem, payload: S::Payload) -> Evaluation
        where V: ScoreFn<S>, Q: ScoreFn<S>
    {
        Evaluation::of(self.value_fn.of(problem, payload), self.penalty_fn.of(problem, payload))
    }

    /// An evaluation turns `before` into `after`: the payload stays, and the
    /// embedded evaluation becomes that of the payload.
    pub open spec fn evaluates_to<S: Solution>(&self, problem: &S::Problem, before: &S, after: &S) -> bool
        where V: ScoreFn<S>, Q: ScoreFn<S>
    {
        &&& after.payload() == before.payload()
        &&& after.eval() == self.measured::<S>(problem, before.payload())
    }

    /// The candidate carries the evaluation of its own payload.
    pub open spec fn graded<S: Solution>(&self, problem: &S::Problem, solution: &S) -> bool
        where V: ScoreFn<S>, Q: ScoreFn<S>
    {
        solution.eval() == self.measured::<S>(problem, solution.payload())
    }

    /// The aggregate of an evaluation, signed so that larger is better in
    /// this criterion's direction.
    pub open spec fn merit(&self, e: Evaluation) -> int {
        merit_of(self.maximize, e)
    }

    /// `a` displaces `b` as the best seen under this criterion.
    pub open spec fn supersedes(&self, a: Evaluation, b: Evaluation) -> bool {
        supersedes_of(self.maximize, a, b)
    }

    /// Computes value and penalty of the candidate and writes them, with the
    /// feasibility bit, into its embedded evaluation.
    pub fn evaluate<S: Solution>(&self, problem: &S::Problem, solution: &mut S)
        where V: ScoreFn<S>, Q: ScoreFn<S>
        requires
            fits(old(solution), problem),
        ensures
            self.evaluates_to(problem, old(solution), final(solution)),
            final(solution).eval().wf(),
            self.graded(problem, final(solution)),
            self.graded(problem, old(solution)) ==> same(final(solution), old(solution)),
    {
        let value: i64 = self.value_fn.measure(problem, &*solution);
        let penalty: i64 = self.penalty_fn.measure(problem, &*solution);
        solution.set_eval(Evaluation::new(value, penalty));
    }

    /// The aggregate that the candidate's evaluation stands for: objective
    /// plus penalty.
    pub fn score<S: Solution>(&self, solution: &S) -> (s: i128)
        ensures
            s == solution.eval().aggregate(),
    {
        solution.get_eval().score()
    }

    /// The score, signed so that larger is better in this criterion's
    /// direction.
    pub fn merit_value(&self, e: &Evaluation) -> (m: i128)
        ensures
            m == self.merit(*e),
    {
        if self.maximize {
            e.score()
        } else {
            -e.score()
        }
    }

    /// Whether `a` is strictly preferred to `b` by score, in this criterion's
    /// direction.
    pub fn is_better<S: Solution>(&self, a: &S, b: &S) -> (better: bool)
        ensures
            better == (self.merit(a.eval()) > self.merit(b.eval())),
            self.maximize ==> better == (a.eval().aggregate() > b.eval().aggregate()),
            !self.maximize ==> better == (a.eval().aggregate() < b.eval().aggregate()),
    {
        self.merit_value(&a.get_eval()) > self.merit_value(&b.get_eval())
    }

    /// Whether a candidate evaluated as `a` displaces one evaluated as `b` as
    /// the best seen.
    pub fn displaces(&self, a: &Evaluation, b: &Evaluation) -> (yes: bool)
        ensures
            yes == self.supersedes(*a, *b),
    {
        if a.feasible == b.feasible {
            self.merit_value(a) > self.merit_value(b)
        } else {
            a.feasible
        }
    }
}

/// Evaluating twice is evaluating once: a candidate that comes out of an
/// evaluation comes out of the next one as it went in.
pub proof fn lemma_evaluation_idempotent<S: Solution, V: ScoreFn<S>, Q: ScoreFn<S>>(
    criterion: &Criterion<V, Q>,
    problem: &S::Problem,
    before: &S,
    once: &S,
    twice: &S,
)
    requires
        criterion.evaluates_to(problem, before, once),
        criterion.evaluates_to(problem, once, twice),
    ensures
        same(twice, once),
        once.eval().wf(),
{
}

} // verus!
