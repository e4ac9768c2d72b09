use vstd::prelude::*;
use crate::base::{
    Problem,
    Solution,
    ScoreFn,
    StateChanger,
    Observer,
    Seen,
    fits,
    same,
    same_moves,
    notice_of,
};
use crate::coolers::{Cooler, after_steps, never_rises};
use crate::criterion::{Criterion, merit_of, supersedes_of};
use crate::evaluation::Evaluation;
use crate::dice::{Dice, continues, taken, joined, lemma_one_more_go};
use crate::stop::{StopCriteria, state_after, halts_at, stops_at_end, lemma_run_extended};
use crate::thermal::{thermal_trial, thermal_settled, lemma_easier_trial_succeeds};
use crate::trajectory::{
    running_best,
    never_falls,
    never_descends,
    no_level_step,
    counted,
    told,
    closing,
    lemma_running_best_leads,
    lemma_running_best_rises,
    lemma_trajectory_extended,
    lemma_heard_extended,
};

verus! {

/// A search engine: takes a starting candidate and hands back the best
/// candidate that the search has kept.
pub trait OptAlghorithm<S: Solution> {
    /// What a solve needs of the engine.
    spec fn ready(&self) -> bool;

    fn solve<V, Q, M, O>(
        &mut self,
        problem: &S::Problem,
        solution: S,
        criterion: &Criterion<V, Q>,
        mover: &mut M,
        observer: &mut O,
    ) -> (best: S) where V: ScoreFn<S>, Q: ScoreFn<S>, M: StateChanger<S>, O: Observer<S>
        requires
            old(self).ready(),
            fits(&solution, problem),
        ensures
            fits(&best, problem),
            criterion.graded(problem, &best),
            !criterion.supersedes(
                criterion.measured::<S>(problem, solution.payload()),
                best.eval(),
            ),
    ;
}

/// What the acceptance rule says of a move before any draw is made.
#[derive(Clone, Copy, Debug, PartialEq, Eq, Structural)]
pub enum Acceptance {
    /// The move improves the merit: keep it.
    Accept,
    /// The move leaves the merit as it was, or worsens it at temperature
    /// zero: undo it.
    Reject,
    /// The move worsens the merit at a positive temperature: keep it with
    /// probability `exp(delta / temp)`.
    Thermal,
}

/// The acceptance rule as a function of the change in merit and the
/// temperature.
pub open spec fn acceptance_of(delta: int, temp: u64) -> Acceptance {
    if delta > 0 {
        Acceptance::Accept
    } else if delta == 0 || temp == 0 {
        Acceptance::Reject
    } else {
        Acceptance::Thermal
    }
}

/// Classifies a move by its change in merit and the temperature.
pub fn acceptance(delta: i128, temp: u64) -> (a: Acceptance)
    ensures
        a == acceptance_of(delta as int, temp),
{
    if delta > 0 {
        Acceptance::Accept
    } else if delta == 0 || temp == 0 {
        Acceptance::Reject
    } else {
        Acceptance::Thermal
    }
}

/// The draws `used` settle a move that changed the merit by `delta` at the
/// temperature `temp` as `kept` says: an improvement is kept and a move that
/// changes nothing, or worsens at temperature zero, is undone, both without
/// a draw; any other move is kept where the thermal trial of the worsening
/// succeeds on the draws.
pub open spec fn settled_by(used: Seq<u64>, delta: int, temp: u64, kept: bool) -> bool {
    match acceptance_of(delta, temp) {
        Acceptance::Accept => kept && used.len() == 0,
        Acceptance::Reject => !kept && used.len() == 0,
        Acceptance::Thermal => thermal_settled(used, (-delta) as u128, temp, kept),
    }
}

/// Acceptance is monotone in the temperature and in the change, on one
/// stream of draws: where a move is kept, a move that changes the merit by
/// no less is kept at a temperature that is no lower, on the first `n` of
/// the same draws. The one exception is a move that changes nothing, which
/// is undone whatever the temperature and the draws.
pub proof fn lemma_acceptance_is_monotone(
    used: Seq<u64>,
    delta: int,
    temp: u64,
    milder: int,
    hotter: u64,
) -> (n: int)
    requires
        temp <= hotter,
        -0x2_0000_0000_0000_0000 <= delta <= milder,
        milder != 0,
        settled_by(used, delta, temp, true),
    ensures
        0 <= n <= used.len(),
        settled_by(used.take(n), milder, hotter, true),
{
    if milder > 0 {
        0
    } else {
        lemma_easier_trial_succeeds(used, (-delta) as u128, temp, (-milder) as u128, hotter)
    }
}

/// One iteration went by the rule, with `proposal` as the move that was
/// tried and `used` as the draws that were taken: the mover can make the
/// move, the draws settle whether it is kept, a move that is kept is the
/// candidate afterwards, and a move that is undone leaves the candidate as
/// it was.
pub open spec fn by_the_rule<S: Solution, V: ScoreFn<S>, Q: ScoreFn<S>, M: StateChanger<S>>(
    mover: &M,
    problem: &S::Problem,
    criterion: &Criterion<V, Q>,
    temp: u64,
    used: Seq<u64>,
    before: &S,
    proposal: S::Payload,
    accepted: bool,
    after: &S,
) -> bool {
    let tried = criterion.measured::<S>(problem, proposal);
    let delta = criterion.merit(tried) - criterion.merit(before.eval());
    &&& mover.moves(problem, before.payload(), proposal)
    &&& S::payload_fits(proposal, problem)
    &&& settled_by(used, delta, temp, accepted)
    &&& accepted ==> after.payload() == proposal && after.eval() == tried
    &&& !accepted ==> same(after, before)
}

/// Iteration `i` of a run went by the rule: the move tried can be made by
/// the mover from the payload before it; the draws of the iteration settle,
/// at the temperature of the iteration, whether it is kept; and the payload
/// after it is the move where it is kept, the payload before it where not.
pub open spec fn iteration_by_the_rule<S: Solution, V: ScoreFn<S>, Q: ScoreFn<S>, M: StateChanger<S>>(
    mover: &M,
    problem: &S::Problem,
    criterion: &Criterion<V, Q>,
    path: Seq<Evaluation>,
    temps: Seq<u64>,
    draws: Seq<Seq<u64>>,
    kept: Seq<bool>,
    route: Seq<S::Payload>,
    proposals: Seq<S::Payload>,
    i: int,
) -> bool {
    let delta = criterion.merit(criterion.measured::<S>(problem, proposals[i])) - criterion.merit(
        path[i],
    );
    &&& mover.moves(problem, route[i], proposals[i])
    &&& S::payload_fits(proposals[i], problem)
    &&& settled_by(draws[i], delta, temps[i], kept[i])
    &&& route[i + 1] == (if kept[i] {
        proposals[i]
    } else {
        route[i]
    })
}

/// A whole run went by the rule. `route` holds the payloads of the
/// trajectory `path`, and for each iteration `proposals` holds the move
/// tried, `temps` the temperature, `draws` the draws taken and `kept` whether
/// the move was kept.
pub open spec fn run_by_the_rule<S: Solution, V: ScoreFn<S>, Q: ScoreFn<S>, M: StateChanger<S>>(
    mover: &M,
    problem: &S::Problem,
    criterion: &Criterion<V, Q>,
    path: Seq<Evaluation>,
    temps: Seq<u64>,
    draws: Seq<Seq<u64>>,
    kept: Seq<bool>,
    route: Seq<S::Payload>,
    proposals: Seq<S::Payload>,
) -> bool {
    &&& route.len() == path.len()
    &&& proposals.len() + 1 == path.len()
    &&& temps.len() == proposals.len()
    &&& draws.len() == proposals.len()
    &&& kept.len() == proposals.len()
    &&& forall|i: int|
        0 <= i < route.len() ==> S::payload_fits(#[trigger] route[i], problem) && path[i]
            == criterion.measured::<S>(problem, route[i])
    &&& forall|i: int|
        0 <= i < proposals.len() ==> #[trigger] iteration_by_the_rule(
            mover,
            problem,
            criterion,
            path,
            temps,
            draws,
            kept,
            route,
            proposals,
            i,
        )
}

/// A run that went by the rule and is followed by one more iteration that
/// went by the rule is a run that went by the rule.
pub proof fn lemma_iteration_added<S: Solution, V: ScoreFn<S>, Q: ScoreFn<S>, M: StateChanger<S>>(
    first: &M,
    mover: &M,
    problem: &S::Problem,
    criterion: &Criterion<V, Q>,
    path: Seq<Evaluation>,
    temps: Seq<u64>,
    draws: Seq<Seq<u64>>,
    kept: Seq<bool>,
    route: Seq<S::Payload>,
    proposals: Seq<S::Payload>,
    temp: u64,
    used: Seq<u64>,
    before: &S,
    proposal: S::Payload,
    accepted: bool,
    after: &S,
)
    requires
        run_by_the_rule(first, problem, criterion, path, temps, draws, kept, route, proposals),
        same_moves(mover, first, problem),
        by_the_rule(mover, problem, criterion, temp, used, before, proposal, accepted, after),
        before.payload() == route[route.len() - 1],
        before.eval() == path[path.len() - 1],
        fits(after, problem),
        criterion.graded(problem, after),
    ensures
        run_by_the_rule(
            first,
            problem,
            criterion,
            path.push(after.eval()),
            temps.push(temp),
            draws.push(used),
            kept.push(accepted),
            route.push(after.payload()),
            proposals.push(proposal),
        ),
{
    let path2 = path.push(after.eval());
    let temps2 = temps.push(temp);
    let draws2 = draws.push(used);
    let kept2 = kept.push(accepted);
    let route2 = route.push(after.payload());
    let proposals2 = proposals.push(proposal);
    let n = proposals.len() as int;
    assert(first.moves(problem, before.payload(), proposal) == mover.moves(
        problem,
        before.payload(),
        proposal,
    ));
    assert forall|i: int| 0 <= i < route2.len() implies S::payload_fits(
        #[trigger] route2[i],
        problem,
    ) && path2[i] == criterion.measured::<S>(problem, route2[i]) by {
        if i < route.len() {
            assert(route2[i] == route[i]);
            assert(path2[i] == path[i]);
        }
    }
    assert forall|i: int| 0 <= i < proposals2.len() implies #[trigger] iteration_by_the_rule(
        first,
        problem,
        criterion,
        path2,
        temps2,
        draws2,
        kept2,
        route2,
        proposals2,
        i,
    ) by {
        if i < n {
            assert(iteration_by_the_rule(
                first,
                problem,
                criterion,
                path,
                temps,
                draws,
                kept,
                route,
                proposals,
                i,
            ));
            assert(proposals2[i] == proposals[i]);
            assert(path2[i] == path[i]);
            assert(temps2[i] == temps[i]);
            assert(draws2[i] == draws[i]);
            assert(kept2[i] == kept[i]);
            assert(route2[i] == route[i]);
            assert(route2[i + 1] == route[i + 1]);
        } else {
            assert(proposals2[i] == proposal);
            assert(path2[i] == before.eval());
            assert(route2[i] == before.payload());
            assert(route2[i + 1] == after.payload());
        }
    }
}

/// The best candidate after a step: the moved candidate where it was
/// accepted and displaces the best so far, the best so far otherwise.
pub open spec fn best_after<S: Solution>(
    maximize: bool,
    accepted: bool,
    current: &S,
    best_before: &S,
    best: &S,
) -> bool {
    if accepted && supersedes_of(maximize, current.eval(), best_before.eval()) {
        same(best, current)
    } else {
        same(best, best_before)
    }
}

/// Simulated annealing: one trajectory, with thermal acceptance of moves that
/// worsen the merit.
pub struct SimmulatedAnnealing<St, Co> {
    pub stop_criteria: St,
    pub cooler: Co,
    pub rnd: Dice,
    /// Iterations of the last solve, counted up to `u64::MAX`.
    pub iterations: u64,
    /// What the stop criterion was shown in the last solve: the merit of the
    /// best candidate after each iteration.
    pub ticks: Ghost<Seq<i128>>,
    /// The trajectory of the last solve: the evaluation of the starting
    /// candidate, then that of the live candidate after each iteration.
    pub path: Ghost<Seq<Evaluation>>,
    /// The temperature at which each iteration of the last solve ran.
    pub temps: Ghost<Seq<u64>>,
    /// The draws that each iteration of the last solve took.
    pub draws: Ghost<Seq<Seq<u64>>>,
    /// Whether each iteration of the last solve kept its move.
    pub kept: Ghost<Seq<bool>>,
}

/// What an engine has recorded of its last solve.
pub struct Records {
    pub iterations: u64,
    pub ticks: Seq<i128>,
    pub path: Seq<Evaluation>,
    pub temps: Seq<u64>,
    pub draws: Seq<Seq<u64>>,
    pub kept: Seq<bool>,
}

impl Records {
    /// The records of an engine that has solved nothing yet.
    pub open spec fn blank() -> Records {
        Records {
            iterations: 0,
            ticks: Seq::empty(),
            path: Seq::empty(),
            temps: Seq::empty(),
            draws: Seq::empty(),
            kept: Seq::empty(),
        }
    }
}

impl<St: StopCriteria, Co: Cooler> SimmulatedAnnealing<St, Co> {
    /// An engine whose generator is seeded by the operating system. Nothing
    /// has been drawn or recorded yet.
    pub fn new(stop_criteria: St, cooler: Co) -> (engine: Self)
        ensures
            engine.stop_criteria == stop_criteria,
            engine.cooler == cooler,
            engine.rnd.drawn() == Seq::<u64>::empty(),
            engine.records() == Records::blank(),
    {
        SimmulatedAnnealing {
            stop_criteria,
            cooler,
            rnd: Dice::from_entropy(),
            iterations: 0,
            ticks: Ghost(Seq::empty()),
            path: Ghost(Seq::empty()),
            temps: Ghost(Seq::empty()),
            draws: Ghost(Seq::empty()),
            kept: Ghost(Seq::empty()),
        }
    }

    /// An engine whose draws are fixed by `seed`. Nothing has been drawn or
    /// recorded yet.
    pub fn with_seed(stop_criteria: St, cooler: Co, seed: u64) -> (engine: Self)
        ensures
            engine.stop_criteria == stop_criteria,
            engine.cooler == cooler,
            engine.rnd.drawn() == Seq::<u64>::empty(),
            engine.records() == Records::blank(),
    {
        SimmulatedAnnealing {
            stop_criteria,
            cooler,
            rnd: Dice::seeded(seed),
            iterations: 0,
            ticks: Ghost(Seq::empty()),
            path: Ghost(Seq::empty()),
            temps: Ghost(Seq::empty()),
            draws: Ghost(Seq::empty()),
            kept: Ghost(Seq::empty()),
        }
    }

    /// What the engine has recorded of its last solve.
    pub open spec fn records(&self) -> Records {
        Records {
            iterations: self.iterations,
            ticks: self.ticks@,
            path: self.path@,
            temps: self.temps@,
            draws: self.draws@,
            kept: self.kept@,
        }
    }

    /// Schedule and stop criterion are well formed.
    pub open spec fn wf(&self) -> bool {
        self.cooler.wf() && self.stop_criteria.wf()
    }

    /// The number of iterations that the last solve performed.
    pub fn iterations(&self) -> (n: u64)
        ensures
            n == self.iterations,
    {
        self.iterations
    }

    /// Decides whether a move that changed the merit by `delta` is kept.
    fn hot_enought_to_swap(&mut self, delta: i128) -> (swap: bool)
        requires
            old(self).cooler.wf(),
            -0x2_0000_0000_0000_0000 <= delta <= 0x2_0000_0000_0000_0000,
        ensures
            final(self).cooler == old(self).cooler,
            final(self).stop_criteria == old(self).stop_criteria,
            final(self).records() == old(self).records(),
            acceptance_of(delta as int, old(self).cooler.temperature()) == Acceptance::Accept ==> swap,
            acceptance_of(delta as int, old(self).cooler.temperature()) == Acceptance::Reject ==> !swap,
            continues(old(self).rnd.drawn(), final(self).rnd.drawn()),
            settled_by(
                taken(old(self).rnd.drawn(), final(self).rnd.drawn()),
                delta as int,
                old(self).cooler.temperature(),
                swap,
            ),
    {
        proof {
            let record = self.rnd.drawn();
            assert(record.take(record.len() as int) =~= record);
            assert(taken(record, record) =~= Seq::<u64>::empty());
        }
        let temp: u64 = self.cooler.temp();
        match acceptance(delta, temp) {
            Acceptance::Accept => true,
            Acceptance::Reject => false,
            Acceptance::Thermal => thermal_trial(&mut self.rnd, (-delta) as u128, temp),
        }
    }

    /// One iteration: snapshot, move, evaluate, accept or undo, update the
    /// best candidate, cool.
    pub fn step<S, V, Q, M>(
        &mut self,
        problem: &S::Problem,
        current: &mut S,
        best: &mut S,
        criterion: &Criterion<V, Q>,
        mover: &mut M,
    ) -> (accepted: bool) where S: Solution, V: ScoreFn<S>, Q: ScoreFn<S>, M: StateChanger<S>
        requires
            old(self).cooler.wf(),
            fits(old(current), problem),
            criterion.graded(problem, old(current)),
            fits(old(best), problem),
            criterion.graded(problem, old(best)),
        ensures
            final(self).cooler == old(self).cooler.after(),
            final(self).cooler.wf(),
            final(self).cooler.temperature() <= old(self).cooler.temperature(),
            final(self).cooler.initial() == old(self).cooler.initial(),
            final(self).stop_criteria == old(self).stop_criteria,
            final(self).records() == old(self).records(),
            continues(old(self).rnd.drawn(), final(self).rnd.drawn()),
            exists|proposal: S::Payload| #[trigger]
                by_the_rule(
                    old(mover),
                    problem,
                    criterion,
                    old(self).cooler.temperature(),
                    taken(old(self).rnd.drawn(), final(self).rnd.drawn()),
                    old(current),
                    proposal,
                    accepted,
                    final(current),
                ),
            same_moves(final(mover), old(mover), problem),
            fits(final(current), problem),
            criterion.graded(problem, final(current)),
            fits(final(best), problem),
            criterion.graded(problem, final(best)),
            !accepted ==> same(final(current), old(current)),
            accepted ==> criterion.merit(final(current).eval()) != criterion.merit(old(current).eval()),
            accepted && old(self).cooler.temperature() == 0 ==> criterion.merit(final(current).eval())
                > criterion.merit(old(current).eval()),
            best_after(criterion.maximize, accepted, final(current), old(best), final(best)),
            same(final(best), old(best)) || criterion.supersedes(final(best).eval(), old(best).eval()),
            old(best).eval().feasible ==> final(best).eval().feasible,
            old(best).eval().feasible || !final(best).eval().feasible ==> criterion.merit(
                final(best).eval(),
            ) >= criterion.merit(old(best).eval()),
    {
        let before_change: S = current.duplicate();
        mover.change_state(current, problem);
        let ghost proposal: S::Payload = current.payload();
        criterion.evaluate(problem, current);
        let delta: i128 = criterion.merit_value(&current.get_eval()) - criterion.merit_value(
            &before_change.get_eval(),
        );
        let accepted: bool = self.hot_enought_to_swap(delta);
        if accepted {
            if criterion.displaces(&current.get_eval(), &best.get_eval()) {
                *best = current.duplicate();
            }
        } else {
            *current = before_change;
        }
        self.cooler.cool();
        assert(by_the_rule(
            old(mover),
            problem,
            criterion,
            old(self).cooler.temperature(),
            taken(old(self).rnd.drawn(), self.rnd.drawn()),
            old(current),
            proposal,
            accepted,
            current,
        ));
        accepted
    }
}

impl<S, St, Co> OptAlghorithm<S> for SimmulatedAnnealing<St, Co> where
    S: Solution,
    St: StopCriteria,
    Co: Cooler,
 {
    open spec fn ready(&self) -> bool {
        self.wf()
    }

    /// Anneals from `solution` until the stop criterion halts, and returns
    /// the best candidate of the trajectory.
    fn solve<V, Q, M, O>(
        &mut self,
        problem: &S::Problem,
        solution: S,
        criterion: &Criterion<V, Q>,
        mover: &mut M,
        observer: &mut O,
    ) -> (best: S) where V: ScoreFn<S>, Q: ScoreFn<S>, M: StateChanger<S>, O: Observer<S>
        ensures
            final(self).wf(),
            // The stop criterion was reset, asked once per iteration, and
            // obeyed.
            stops_at_end(old(self).stop_criteria.fresh(), final(self).ticks@),
            final(self).stop_criteria == state_after(
                old(self).stop_criteria.fresh(),
                final(self).ticks@,
            ),
            final(self).iterations == counted(final(self).ticks@.len() as int),
            // The schedule was reset and cooled once after each iteration:
            // the first iteration ran at the initial temperature, and none
            // ran at a higher temperature than the one before it.
            final(self).cooler == after_steps(old(self).cooler.fresh(), final(self).ticks@.len()),
            final(self).cooler.initial() == old(self).cooler.initial(),
            final(self).cooler.temperature() <= old(self).cooler.initial(),
            final(self).temps@.len() == final(self).ticks@.len(),
            final(self).temps@[0] == old(self).cooler.initial(),
            never_rises(final(self).temps@),
            forall|i: int|
                0 <= i < final(self).temps@.len() ==> #[trigger] final(self).temps@[i] == after_steps(
                    old(self).cooler.fresh(),
                    i as nat,
                ).temperature(),
            // The draws of the iterations, one after the other, are what was
            // taken from the generator.
            final(self).rnd.drawn() == old(self).rnd.drawn() + joined(final(self).draws@),
            // The trajectory starts at the evaluated starting candidate and
            // has one entry per iteration after it.
            final(self).path@.len() == final(self).ticks@.len() + 1,
            final(self).path@[0] == criterion.measured::<S>(problem, solution.payload()),
            // The result is the running best of the whole trajectory, and
            // what the stop criterion saw is the running best so far.
            best.eval() == running_best(
                criterion.maximize,
                final(self).path@,
                final(self).path@.len() as int,
            ),
            forall|i: int|
                0 <= i < final(self).ticks@.len() ==> #[trigger] final(self).ticks@[i] == criterion.merit(
                    running_best(criterion.maximize, final(self).path@, i + 2),
                ),
            // From a feasible start the best stays feasible and its merit
            // never falls.
            criterion.measured::<S>(problem, solution.payload()).feasible ==> {
                &&& best.eval().feasible
                &&& never_falls(final(self).ticks@)
                &&& final(self).ticks@[0] >= criterion.merit(
                    criterion.measured::<S>(problem, solution.payload()),
                )
            },
            // A move that leaves the merit as it was is never kept.
            no_level_step(criterion.maximize, final(self).path@),
            // At temperature zero the search only climbs.
            old(self).cooler.initial() == 0 ==> never_descends(criterion.maximize, final(self).path@),
            // Every iteration went by the acceptance rule, at its
            // temperature and on its draws, and the result is a candidate of
            // the trajectory.
            same_moves(final(mover), old(mover), problem),
            exists|route: Seq<S::Payload>, proposals: Seq<S::Payload>|
                {
                    &&& #[trigger] run_by_the_rule(
                        old(mover),
                        problem,
                        criterion,
                        final(self).path@,
                        final(self).temps@,
                        final(self).draws@,
                        final(self).kept@,
                        route,
                        proposals,
                    )
                    &&& route[0] == solution.payload()
                    &&& exists|i: int| 0 <= i < route.len() && #[trigger] route[i] == best.payload()
                },
            // The observer was told of every iteration, in order, and then
            // of the end.
            final(observer).seen() == (old(observer).seen() + told(
                problem.id(),
                criterion.maximize,
                final(self).path@,
                1,
                final(self).ticks@.len() as int,
            )).push(closing(problem.id(), final(self).ticks@.len() as int)),
    {
        let ghost start: Evaluation = criterion.measured::<S>(problem, solution.payload());
        let ghost fresh: St = self.stop_criteria.fresh();
        let ghost cold: Co = self.cooler.fresh();
        let ghost initial: u64 = self.cooler.initial();
        let ghost maximize: bool = criterion.maximize;
        let ghost heard: Seen = observer.seen();
        let ghost pid: u32 = problem.id();
        let ghost record: Seq<u64> = self.rnd.drawn();
        self.cooler.reset();
        self.stop_criteria.reset();
        self.iterations = 0;
        self.ticks = Ghost(Seq::empty());
        self.temps = Ghost(Seq::empty());
        self.draws = Ghost(Seq::empty());
        self.kept = Ghost(Seq::empty());
        let mut current: S = solution;
        criterion.evaluate(problem, &mut current);
        let mut best: S = current.duplicate();
        self.path = Ghost(Seq::empty().push(start));
        let ghost first: &M = mover;
        let ghost mut route: Seq<S::Payload> = Seq::empty().push(current.payload());
        let ghost mut proposals: Seq<S::Payload> = Seq::empty();
        proof {
            assert(record =~= record + joined(self.draws@));
        }
        loop
            invariant_except_break
                forall|i: int| 0 <= i < self.ticks@.len() ==> !#[trigger] halts_at(fresh, self.ticks@, i),
            invariant
                maximize == criterion.maximize,
                pid == problem.id(),
                self.cooler.wf(),
                self.stop_criteria.wf(),
                self.cooler.initial() == initial,
                self.cooler.temperature() <= initial,
                self.cooler == after_steps(cold, self.ticks@.len()),
                self.temps@.len() == self.ticks@.len(),
                self.temps@.len() == 0 ==> self.cooler.temperature() == initial,
                self.temps@.len() > 0 ==> self.temps@[0] == initial,
                never_rises(self.temps@),
                forall|i: int|
                    0 <= i < self.temps@.len() ==> self.cooler.temperature() <= #[trigger] self.temps@[i],
                forall|i: int|
                    0 <= i < self.temps@.len() ==> #[trigger] self.temps@[i] == after_steps(
                        cold,
                        i as nat,
                    ).temperature(),
                self.rnd.drawn() == record + joined(self.draws@),
                fits(&current, problem),
                criterion.graded(problem, &current),
                fits(&best, problem),
                criterion.graded(problem, &best),
                self.stop_criteria == state_after(fresh, self.ticks@),
                self.iterations == counted(self.ticks@.len() as int),
                observer.seen() == heard + told(pid, maximize, self.path@, 1, self.ticks@.len() as int),
                self.path@.len() == self.ticks@.len() + 1,
                self.path@[0] == start,
                self.path@[self.path@.len() - 1] == current.eval(),
                best.eval() == running_best(maximize, self.path@, self.path@.len() as int),
                forall|i: int|
                    0 <= i < self.ticks@.len() ==> #[trigger] self.ticks@[i] == merit_of(
                        maximize,
                        running_best(maximize, self.path@, i + 2),
                    ),
                initial == 0 ==> never_descends(maximize, self.path@),
                no_level_step(maximize, self.path@),
                same_moves(mover, first, problem),
                run_by_the_rule(
                    first,
                    problem,
                    criterion,
                    self.path@,
                    self.temps@,
                    self.draws@,
                    self.kept@,
                    route,
                    proposals,
                ),
                route[0] == solution.payload(),
                route[route.len() - 1] == current.payload(),
                exists|i: int| 0 <= i < route.len() && #[trigger] route[i] == best.payload(),
            ensures
                stops_at_end(fresh, self.ticks@),
            decreases self.stop_criteria.fuel(),
        {
            let ghost path = self.path@;
            let ghost ticks = self.ticks@;
            let ghost temps = self.temps@;
            let ghost before: S = current;
            let ghost held: S = best;
            let ghost mover_before: &M = mover;
            let ghost temp = self.cooler.temperature();
            let ghost drawn = self.rnd.drawn();
            let ghost old_route = route;
            let accepted: bool = self.step(problem, &mut current, &mut best, criterion, mover);
            let ghost used = taken(drawn, self.rnd.drawn());
            proof {
                let proposal = choose|proposal: S::Payload| #[trigger]
                    by_the_rule(
                        mover_before,
                        problem,
                        criterion,
                        temp,
                        used,
                        &before,
                        proposal,
                        accepted,
                        &current,
                    );
                lemma_iteration_added(
                    first,
                    mover_before,
                    problem,
                    criterion,
                    path,
                    temps,
                    self.draws@,
                    self.kept@,
                    route,
                    proposals,
                    temp,
                    used,
                    &before,
                    proposal,
                    accepted,
                    &current,
                );
                lemma_one_more_go(record, self.draws@, drawn, self.rnd.drawn());
                route = route.push(current.payload());
                proposals = proposals.push(proposal);
                if accepted && criterion.supersedes(current.eval(), held.eval()) {
                    assert(route[route.len() - 1] == best.payload());
                } else {
                    let w = choose|i: int| 0 <= i < old_route.len() && #[trigger] old_route[i] == held.payload();
                    assert(route[w] == best.payload());
                }
                assert(after_steps(cold, (ticks.len() + 1) as nat) == after_steps(
                    cold,
                    ticks.len(),
                ).after());
            }
            self.temps = Ghost(self.temps@.push(temp));
            self.draws = Ghost(self.draws@.push(used));
            self.kept = Ghost(self.kept@.push(accepted));
            if self.iterations < u64::MAX {
                self.iterations = self.iterations + 1;
            }
            observer.observe(self.iterations, problem, Some(&best), Some(&current), false);
            let merit: i128 = criterion.merit_value(&best.get_eval());
            proof {
                lemma_run_extended(fresh, ticks, merit);
                lemma_trajectory_extended(
                    maximize,
                    path,
                    ticks,
                    current.eval(),
                    accepted,
                    best.eval(),
                    merit,
                    initial == 0,
                );
                lemma_heard_extended(
                    heard,
                    pid,
                    maximize,
                    path,
                    current.eval(),
                    1,
                    ticks.len() as int,
                    notice_of(self.iterations, problem, Some(&best), Some(&current), false),
                );
            }
            self.path = Ghost(self.path@.push(current.eval()));
            self.ticks = Ghost(self.ticks@.push(merit));
            let stop: bool = self.stop_criteria.should_stop(merit);
            if stop {
                break ;
            }
        }
        proof {
            let path = self.path@;
            let ticks = self.ticks@;
            lemma_running_best_leads(maximize, path, path.len() as int);
            if start.feasible {
                lemma_running_best_rises(maximize, path, 1, path.len() as int);
                lemma_running_best_rises(maximize, path, 1, 2);
                assert forall|i: int, j: int| 0 <= i <= j < ticks.len() implies ticks[i] <= ticks[j] by {
                    lemma_running_best_rises(maximize, path, 1, i + 2);
                    lemma_running_best_rises(maximize, path, i + 2, j + 2);
                }
            }
        }
        observer.observe(self.iterations, problem, None, None, true);
        best
    }
}

} // verus!
