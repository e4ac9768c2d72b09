use vstd::prelude::*;
use crate::evaluation::Evaluation;

verus! {

/// A problem instance: read-only for the duration of a solve.
pub trait Problem {
    /// The stable identity of the instance.
    spec fn id(&self) -> u32;

    fn get_id(&self) -> (id: u32)
        ensures
            id == self.id(),
    ;
}

/// A candidate: a payload that describes a point of the search space, and the
/// evaluation last written into it.
pub trait Solution: Sized {
    /// The kind of problem that the candidate answers.
    type Problem: Problem;

    /// The mathematical value of the payload.
    type Payload;

    spec fn payload(&self) -> Self::Payload;

    spec fn eval(&self) -> Evaluation;

    /// Whether a payload is a point of the search space of `problem`.
    spec fn payload_fits(payload: Self::Payload, problem: &Self::Problem) -> bool;

    fn get_eval(&self) -> (e: Evaluation)
        ensures
            e == self.eval(),
    ;

    fn get_value(&self) -> (v: i64)
        ensures
            v == self.eval().value,
    ;

    /// Overwrites the embedded evaluation and leaves the payload alone.
    fn set_eval(&mut self, e: Evaluation)
        ensures
            final(self).payload() == old(self).payload(),
            final(self).eval() == e,
    ;

    /// A deep copy: same payload, same evaluation.
    fn duplicate(&self) -> (copy: Self)
        ensures
            copy.payload() == self.payload(),
            copy.eval() == self.eval(),
    ;
}

/// Two candidates that no observation tells apart.
pub open spec fn same<S: Solution>(a: &S, b: &S) -> bool {
    a.payload() == b.payload() && a.eval() == b.eval()
}

/// The candidate is a point of the search space of `problem`.
pub open spec fn fits<S: Solution>(solution: &S, problem: &S::Problem) -> bool {
    S::payload_fits(solution.payload(), problem)
}

/// A function of problem and payload alone, such as an objective or a
/// penalty.
pub trait ScoreFn<S: Solution> {
    /// The number that the function assigns to a payload.
    spec fn of(&self, problem: &S::Problem, payload: S::Payload) -> i64;

    fn measure(&self, problem: &S::Problem, solution: &S) -> (v: i64)
        requires
            fits(solution, problem),
        ensures
            v == self.of(problem, solution.payload()),
    ;
}

/// A mover: perturbs a candidate in place and stays inside the search space.
pub trait StateChanger<S: Solution> {
    /// What one move can turn a payload into. A move leaves this relation
    /// as it is.
    spec fn moves(&self, problem: &S::Problem, before: S::Payload, after: S::Payload) -> bool;

    fn change_state(&mut self, solution: &mut S, problem: &S::Problem)
        requires
            fits(old(solution), problem),
        ensures
            fits(final(solution), problem),
            old(self).moves(problem, old(solution).payload(), final(solution).payload()),
            forall|a: S::Payload, b: S::Payload| #[trigger]
                final(self).moves(problem, a, b) == old(self).moves(problem, a, b),
    ;
}

/// Two movers can make the same moves.
pub open spec fn same_moves<S: Solution, M: StateChanger<S>>(one: &M, other: &M, problem: &S::Problem) -> bool {
    forall|a: S::Payload, b: S::Payload| #[trigger]
        one.moves(problem, a, b) == other.moves(problem, a, b)
}

/// What an observer is told in one call.
pub struct Notice {
    pub iteration: u64,
    /// The identity of the problem being solved.
    pub problem: u32,
    /// The evaluation of the best candidate; nothing in the terminal call.
    pub best: Option<Evaluation>,
    /// The evaluation of the live candidate; nothing in the terminal call.
    pub current: Option<Evaluation>,
    pub terminal: bool,
}

/// The calls that an observer has received, oldest first.
pub type Seen = Seq<Notice>;

/// The notice that a call with these arguments delivers.
pub open spec fn notice_of<S: Solution>(
    iteration: u64,
    problem: &S::Problem,
    best: Option<&S>,
    current: Option<&S>,
    terminal: bool,
) -> Notice {
    Notice {
        iteration,
        problem: problem.id(),
        best: match best {
            Some(b) => Some(b.eval()),
            None => None,
        },
        current: match current {
            Some(c) => Some(c.eval()),
            None => None,
        },
        terminal,
    }
}

/// An advisory callback that the engines invoke after every iteration, and
/// once more at the end of a solve with `terminal` set and no candidates.
pub trait Observer<S: Solution> {
    /// The calls received so far.
    spec fn seen(&self) -> Seen;

    fn observe(
        &mut self,
        iteration: u64,
        problem: &S::Problem,
        best: Option<&S>,
        current: Option<&S>,
        terminal: bool,
    )
        ensures
            final(self).seen() == old(self).seen().push(
                notice_of(iteration, problem, best, current, terminal),
            ),
    ;
}

/// The observer that does nothing with what it is told.
pub struct Silent {
    pub seen: Ghost<Seen>,
}

impl Silent {
    /// An observer that has been told nothing yet.
    pub fn new() -> (s: Self)
        ensures
            s.seen@.len() == 0,
    {
        Silent { seen: Ghost(Seq::empty()) }
    }
}

impl<S: Solution> Observer<S> for Silent {
    open spec fn seen(&self) -> Seen {
        self.seen@
    }

    fn observe(
        &mut self,
        iteration: u64,
        problem: &S::Problem,
        best: Option<&S>,
        current: Option<&S>,
        terminal: bool,
    ) {
        self.seen = Ghost(self.seen@.push(notice_of(iteration, problem, best, current, terminal)));
    }
}

} // verus!
