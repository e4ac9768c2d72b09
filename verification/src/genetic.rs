use vstd::prelude::*;
use crate::base::{Problem, Solution, ScoreFn, Observer, Seen, fits, same, notice_of};
use crate::chromosome::{Chromosome, mutated};
use crate::config::ConfigError;
use crate::criterion::{Criterion, supersedes_of, merit_of};
use crate::evaluation::Evaluation;
use crate::population::{
    all_fit,
    all_crossable,
    champion_of,
    bred_from,
    lemma_bred_from_payloads,
    crossable,
    evaluate_all,
    merits_of,
    leader,
    breed,
    mutate_all,
};
use crate::rng::{from_entropy, seed_from_u64, gen_below};
use crate::selection::{Selection, selection_fits, wheel_limit};
use crate::stop::{StopCriteria, state_after, halts_at, stops_at_end, lemma_run_extended};
use crate::trajectory::{
    running_best,
    never_falls,
    counted,
    told,
    closing,
    lemma_running_best_leads,
    lemma_running_best_rises,
    lemma_running_best_extended,
    lemma_heard_extended,
};

verus! {

/// Whether the leader of a generation survives into the next.
#[derive(Clone, Copy, Debug, PartialEq, Eq, Structural)]
pub enum Elitism {
    /// Pure generational replacement.
    Off,
    /// The leader of the old generation displaces one child, chosen
    /// uniformly.
    KeepBest,
}

/// The first fault of a configuration, if it has one.
pub open spec fn config_fault<S: Chromosome>(
    population: Seq<S>,
    mutate_num: u32,
    mutate_den: u32,
    selection: Selection,
) -> Option<ConfigError> {
    if population.len() == 0 {
        Some(ConfigError::EmptyPopulation)
    } else if population.len() < 2 {
        Some(ConfigError::PopulationTooSmall)
    } else if mutate_den == 0 || mutate_num > mutate_den {
        Some(ConfigError::MutationRateOutOfRange)
    } else if !all_crossable(population) {
        Some(ConfigError::PayloadTooShort)
    } else if !selection_fits(selection, population.len() as int) {
        Some(ConfigError::TournamentSizeOutOfRange)
    } else {
        None
    }
}

/// The genetic engine: a population that is replaced, generation by
/// generation, by children bred from selected parents.
pub struct Genetic<S, St> {
    pub population: Vec<S>,
    /// The mutation rate is `mutate_num / mutate_den`.
    pub mutate_num: u32,
    pub mutate_den: u32,
    pub selection: Selection,
    pub elitism: Elitism,
    pub stop_criteria: St,
    pub rnd: rand::rngs::StdRng,
    /// Generations of the last solve, counted up to `u64::MAX`.
    pub generations: u64,
    /// What the stop criterion was shown in the last solve: the merit of the
    /// best candidate after each generation.
    pub ticks: Ghost<Seq<i128>>,
    /// The evaluations of the leaders of the generations of the last solve.
    pub path: Ghost<Seq<Evaluation>>,
    /// The populations of the last solve: the one before each generation,
    /// and the one that the last generation left.
    pub herds: Ghost<Seq<Seq<S>>>,
}

/// The merits of the members as an evaluation finds them.
pub open spec fn merits_when_graded<S: Solution, V: ScoreFn<S>, Q: ScoreFn<S>>(
    criterion: &Criterion<V, Q>,
    problem: &S::Problem,
    population: Seq<S>,
) -> Seq<i128> {
    Seq::new(
        population.len(),
        |i: int| criterion.merit(criterion.measured::<S>(problem, population[i].payload())) as i128,
    )
}

/// `member` can be a child of `parents`: a crossover of two of them that the
/// selection operator can pick, mutated at the given rate, with the zeroed
/// evaluation.
pub open spec fn child_of<S: Chromosome>(
    parents: Seq<S>,
    merits: Seq<i128>,
    selection: Selection,
    member: &S,
    rate_num: u32,
    rate_den: u32,
) -> bool {
    &&& member.eval() == Evaluation::of(0, 0)
    &&& exists|newborn: S::Payload|
        bred_from(parents, merits, selection, S::genes(newborn)) && #[trigger] mutated::<S>(
            newborn,
            member.payload(),
            rate_num,
            rate_den,
        )
}

/// One generation turns `parents` into `children` under the leader
/// `champion`: every child is bred from two parents and mutated, but for the
/// one place that the champion takes where elitism keeps the best.
pub open spec fn next_generation<S: Chromosome, V: ScoreFn<S>, Q: ScoreFn<S>>(
    criterion: &Criterion<V, Q>,
    problem: &S::Problem,
    rate_num: u32,
    rate_den: u32,
    selection: Selection,
    elitism: Elitism,
    parents: Seq<S>,
    champion: &S,
    children: Seq<S>,
) -> bool {
    &&& champion_of(criterion, problem, parents, champion)
    &&& children.len() == parents.len()
    &&& forall|c: int|
        0 <= c < children.len() ==> child_of(
            parents,
            merits_when_graded(criterion, problem, parents),
            selection,
            &#[trigger] children[c],
            rate_num,
            rate_den,
        ) || (elitism == Elitism::KeepBest && same(&children[c], champion))
    &&& elitism == Elitism::KeepBest ==> exists|slot: int|
        0 <= slot < children.len() && same(&#[trigger] children[slot], champion)
}

/// Generation `g` of a run went by the rule: some champion with the
/// evaluation `path[g]` led `herds[g]`, and `herds[g + 1]` are its children.
pub open spec fn generation_by_the_rule<S: Chromosome, V: ScoreFn<S>, Q: ScoreFn<S>>(
    criterion: &Criterion<V, Q>,
    problem: &S::Problem,
    rate_num: u32,
    rate_den: u32,
    selection: Selection,
    elitism: Elitism,
    herds: Seq<Seq<S>>,
    path: Seq<Evaluation>,
    g: int,
) -> bool {
    exists|champion: S|
        champion.eval() == path[g] && #[trigger] next_generation(
            criterion,
            problem,
            rate_num,
            rate_den,
            selection,
            elitism,
            herds[g],
            &champion,
            herds[g + 1],
        )
}

/// A whole run went by the rule: `herds` holds the population before each
/// generation and the one that the last generation left, and `path` the
/// evaluation of the leader of each generation.
pub open spec fn generations_by_the_rule<S: Chromosome, V: ScoreFn<S>, Q: ScoreFn<S>>(
    criterion: &Criterion<V, Q>,
    problem: &S::Problem,
    rate_num: u32,
    rate_den: u32,
    selection: Selection,
    elitism: Elitism,
    herds: Seq<Seq<S>>,
    path: Seq<Evaluation>,
) -> bool {
    &&& herds.len() == path.len() + 1
    &&& forall|g: int|
        0 <= g < path.len() ==> #[trigger] generation_by_the_rule(
            criterion,
            problem,
            rate_num,
            rate_den,
            selection,
            elitism,
            herds,
            path,
            g,
        )
}

/// A run that went by the rule and is followed by one more generation that
/// went by the rule is a run that went by the rule.
pub proof fn lemma_generation_added<S: Chromosome, V: ScoreFn<S>, Q: ScoreFn<S>>(
    criterion: &Criterion<V, Q>,
    problem: &S::Problem,
    rate_num: u32,
    rate_den: u32,
    selection: Selection,
    elitism: Elitism,
    herds: Seq<Seq<S>>,
    path: Seq<Evaluation>,
    champion: &S,
    children: Seq<S>,
)
    requires
        generations_by_the_rule(criterion, problem, rate_num, rate_den, selection, elitism, herds, path),
        next_generation(
            criterion,
            problem,
            rate_num,
            rate_den,
            selection,
            elitism,
            herds[herds.len() - 1],
            champion,
            children,
        ),
    ensures
        generations_by_the_rule(
            criterion,
            problem,
            rate_num,
            rate_den,
            selection,
            elitism,
            herds.push(children),
            path.push(champion.eval()),
        ),
{
    let more = herds.push(children);
    let longer = path.push(champion.eval());
    assert forall|g: int| 0 <= g < longer.len() implies #[trigger] generation_by_the_rule(
        criterion,
        problem,
        rate_num,
        rate_den,
        selection,
        elitism,
        more,
        longer,
        g,
    ) by {
        if g < path.len() {
            assert(more[g] == herds[g]);
            assert(more[g + 1] == herds[g + 1]);
            assert(longer[g] == path[g]);
            assert(generation_by_the_rule(
                criterion,
                problem,
                rate_num,
                rate_den,
                selection,
                elitism,
                herds,
                path,
                g,
            ));
            let leader = choose|leader: S|
                leader.eval() == path[g] && #[trigger] next_generation(
                    criterion,
                    problem,
                    rate_num,
                    rate_den,
                    selection,
                    elitism,
                    herds[g],
                    &leader,
                    herds[g + 1],
                );
            assert(next_generation(
                criterion,
                problem,
                rate_num,
                rate_den,
                selection,
                elitism,
                more[g],
                &leader,
                more[g + 1],
            ));
        } else {
            assert(more[g] == herds[herds.len() - 1]);
            assert(next_generation(
                criterion,
                problem,
                rate_num,
                rate_den,
                selection,
                elitism,
                more[g],
                champion,
                more[g + 1],
            ));
        }
    }
}

/// The best candidate after a generation: the leader of the generation where
/// it displaces the best so far, or where there is none yet; the best so far
/// otherwise.
pub open spec fn kept_after<S: Solution>(maximize: bool, best_before: Option<S>, champion: &S, kept: &S) -> bool {
    match best_before {
        Some(b) => if supersedes_of(maximize, champion.eval(), b.eval()) {
            same(kept, champion)
        } else {
            same(kept, &b)
        },
        None => same(kept, champion),
    }
}

impl<S: Chromosome, St: StopCriteria> Genetic<S, St> {
    /// The configuration has no fault.
    pub open spec fn wf(&self) -> bool {
        &&& config_fault(self.population@, self.mutate_num, self.mutate_den, self.selection).is_none()
        &&& self.population@.len() <= wheel_limit()
        &&& self.stop_criteria.wf()
    }

    /// What a constructor returns: the engine with its parts where the
    /// configuration has no fault, otherwise the first fault.
    pub open spec fn made_from(
        made: Result<Self, ConfigError>,
        population: Seq<S>,
        mutate_num: u32,
        mutate_den: u32,
        selection: Selection,
        elitism: Elitism,
        stop_criteria: St,
    ) -> bool {
        match made {
            Ok(g) => {
                &&& config_fault(population, mutate_num, mutate_den, selection).is_none()
                &&& g.wf()
                &&& g.population@ == population
                &&& g.mutate_num == mutate_num
                &&& g.mutate_den == mutate_den
                &&& g.selection == selection
                &&& g.elitism == elitism
                &&& g.stop_criteria == stop_criteria
                &&& g.generations == 0
                &&& g.ticks@.len() == 0
            },
            Err(e) => config_fault(population, mutate_num, mutate_den, selection) == Some(e),
        }
    }

    fn build(
        population: Vec<S>,
        mutate_num: u32,
        mutate_den: u32,
        selection: Selection,
        elitism: Elitism,
        stop_criteria: St,
        rnd: rand::rngs::StdRng,
    ) -> (made: Result<Self, ConfigError>)
        requires
            population@.len() <= wheel_limit(),
            stop_criteria.wf(),
        ensures
            Self::made_from(made, population@, mutate_num, mutate_den, selection, elitism, stop_criteria),
    {
        if population.len() == 0 {
            return Err(ConfigError::EmptyPopulation);
        }
        if population.len() < 2 {
            return Err(ConfigError::PopulationTooSmall);
        }
        if mutate_den == 0 || mutate_num > mutate_den {
            return Err(ConfigError::MutationRateOutOfRange);
        }
        if !crossable(&population) {
            return Err(ConfigError::PayloadTooShort);
        }
        match selection {
            Selection::Tournament(seats) => {
                if seats == 0 || seats > population.len() {
                    return Err(ConfigError::TournamentSizeOutOfRange);
                }
            },
            Selection::Roulette => {},
        }
        Ok(
            Genetic {
                population,
                mutate_num,
                mutate_den,
                selection,
                elitism,
                stop_criteria,
                rnd,
                generations: 0,
                ticks: Ghost(Seq::empty()),
                path: Ghost(Seq::empty()),
                herds: Ghost(Seq::empty()),
            },
        )
    }

    /// Builds an engine whose generator is seeded by the operating system,
    /// or reports the first fault of the configuration.
    pub fn new(
        population: Vec<S>,
        mutate_num: u32,
        mutate_den: u32,
        selection: Selection,
        elitism: Elitism,
        stop_criteria: St,
    ) -> (made: Result<Self, ConfigError>)
        requires
            population@.len() <= wheel_limit(),
            stop_criteria.wf(),
        ensures
            Self::made_from(made, population@, mutate_num, mutate_den, selection, elitism, stop_criteria),
    {
        Self::build(
            population,
            mutate_num,
            mutate_den,
            selection,
            elitism,
            stop_criteria,
            from_entropy(),
        )
    }

    /// Builds an engine whose draws are fixed by `seed`, or reports the first
    /// fault of the configuration.
    pub fn with_seed(
        population: Vec<S>,
        mutate_num: u32,
        mutate_den: u32,
        selection: Selection,
        elitism: Elitism,
        stop_criteria: St,
        seed: u64,
    ) -> (made: Result<Self, ConfigError>)
        requires
            population@.len() <= wheel_limit(),
            stop_criteria.wf(),
        ensures
            Self::made_from(made, population@, mutate_num, mutate_den, selection, elitism, stop_criteria),
    {
        Self::build(
            population,
            mutate_num,
            mutate_den,
            selection,
            elitism,
            stop_criteria,
            seed_from_u64(seed),
        )
    }

    /// The number of generations that the last solve went through.
    pub fn generations(&self) -> (n: u64)
        ensures
            n == self.generations,
    {
        self.generations
    }

    /// One generation: evaluates the population, finds its leader, updates
    /// the best candidate, and replaces the population by its children.
    /// Returns the best candidate and the leader of the generation.
    pub fn advance<V: ScoreFn<S>, Q: ScoreFn<S>>(
        &mut self,
        problem: &S::Problem,
        criterion: &Criterion<V, Q>,
        best: Option<S>,
    ) -> (out: (S, S))
        requires
            old(self).wf(),
            all_fit(old(self).population@, problem),
            best matches Some(b) ==> fits(&b, problem) && criterion.graded(problem, &b),
        ensures
            final(self).wf(),
            final(self).population@.len() == old(self).population@.len(),
            all_fit(final(self).population@, problem),
            final(self).mutate_num == old(self).mutate_num,
            final(self).mutate_den == old(self).mutate_den,
            final(self).selection == old(self).selection,
            final(self).elitism == old(self).elitism,
            final(self).stop_criteria == old(self).stop_criteria,
            final(self).generations == old(self).generations,
            final(self).ticks == old(self).ticks,
            final(self).path == old(self).path,
            final(self).herds == old(self).herds,
            // The leader is found and the population replaced by its
            // children.
            next_generation(
                criterion,
                problem,
                old(self).mutate_num,
                old(self).mutate_den,
                old(self).selection,
                old(self).elitism,
                old(self).population@,
                &out.1,
                final(self).population@,
            ),
            fits(&out.0, problem),
            criterion.graded(problem, &out.0),
            fits(&out.1, problem),
            criterion.graded(problem, &out.1),
            exists|i: int|
                0 <= i < old(self).population@.len() && out.1.payload() == (
                #[trigger] old(self).population@[i]).payload(),
            forall|i: int|
                0 <= i < old(self).population@.len() ==> !criterion.supersedes(
                    criterion.measured::<S>(problem, (#[trigger] old(self).population@[i]).payload()),
                    out.1.eval(),
                ),
            kept_after(criterion.maximize, best, &out.1, &out.0),
    {
        let n: usize = self.population.len();
        evaluate_all(criterion, problem, &mut self.population);
        let lead: usize = leader(criterion, &self.population);
        let ghost graded = self.population@;
        assert(fits(&graded[lead as int], problem));
        assert(criterion.graded(problem, &graded[lead as int]));
        let champion: S = self.population[lead].duplicate();
        assert forall|i: int| 0 <= i < old(self).population@.len() implies !criterion.supersedes(
            criterion.measured::<S>(problem, (#[trigger] old(self).population@[i]).payload()),
            champion.eval(),
        ) by {
            assert(graded[i].eval() == criterion.measured::<S>(
                problem,
                old(self).population@[i].payload(),
            ));
        }
        assert(champion.payload() == old(self).population@[lead as int].payload());
        assert(champion_of(criterion, problem, old(self).population@, &champion)) by {
            assert forall|j: int| 0 <= j < lead implies criterion.supersedes(
                champion.eval(),
                criterion.measured::<S>(problem, (#[trigger] old(self).population@[j]).payload()),
            ) by {
                assert(graded[j].eval() == criterion.measured::<S>(
                    problem,
                    old(self).population@[j].payload(),
                ));
            }
        }
        let kept: S = match best {
            Some(b) => {
                if criterion.displaces(&champion.get_eval(), &b.get_eval()) {
                    champion.duplicate()
                } else {
                    b
                }
            },
            None => champion.duplicate(),
        };
        assert forall|i: int| 0 <= i < graded.len() implies S::genes(
            (#[trigger] graded[i]).payload(),
        ).len() >= 2 by {
            assert(S::genes(old(self).population@[i].payload()).len() >= 2);
        }
        let merits: Vec<i128> = merits_of(criterion, &self.population);
        let mut children: Vec<S> = breed(
            &mut self.rnd,
            &self.population,
            &merits,
            self.selection,
            problem,
        );
        let ghost newborn = children@;
        let ghost wheel = merits_when_graded(criterion, problem, old(self).population@);
        mutate_all(&mut self.rnd, &mut children, self.mutate_num, self.mutate_den, problem);
        let ghost grown = children@;
        proof {
            assert(merits@ =~= wheel) by {
                assert forall|i: int| 0 <= i < merits@.len() implies merits@[i] == wheel[i] by {
                    assert(graded[i].eval() == criterion.measured::<S>(
                        problem,
                        old(self).population@[i].payload(),
                    ));
                }
            }
            assert forall|c: int| 0 <= c < grown.len() implies child_of(
                old(self).population@,
                wheel,
                self.selection,
                &#[trigger] grown[c],
                self.mutate_num,
                self.mutate_den,
            ) by {
                assert(grown[c].eval() == newborn[c].eval());
                assert(bred_from(graded, wheel, self.selection, S::genes(newborn[c].payload())));
                lemma_bred_from_payloads(
                    graded,
                    old(self).population@,
                    wheel,
                    self.selection,
                    S::genes(newborn[c].payload()),
                );
                assert(mutated::<S>(
                    newborn[c].payload(),
                    grown[c].payload(),
                    self.mutate_num,
                    self.mutate_den,
                ));
            }
        }
        match self.elitism {
            Elitism::KeepBest => {
                let slot: usize = gen_below(&mut self.rnd, n as u128) as usize;
                let elite: S = champion.duplicate();
                let ghost before = children@;
                children.set(slot, elite);
                assert forall|i: int| 0 <= i < children@.len() implies fits(
                    &#[trigger] children@[i],
                    problem,
                ) && S::genes(children@[i].payload()).len() >= 2 by {
                    if i != slot {
                        assert(children@[i] == before[i]);
                        assert(fits(&before[i], problem));
                        assert(S::genes(before[i].payload()).len() >= 2);
                    } else {
                        assert(S::genes(graded[lead as int].payload()).len() >= 2);
                    }
                }
                assert(same(&children@[slot as int], &champion));
                assert forall|c: int| 0 <= c < children@.len() implies child_of(
                    old(self).population@,
                    wheel,
                    self.selection,
                    &#[trigger] children@[c],
                    self.mutate_num,
                    self.mutate_den,
                ) || same(&children@[c], &champion) by {
                    if c != slot {
                        assert(children@[c] == grown[c]);
                    }
                }
            },
            Elitism::Off => {},
        }
        self.population = children;
        (kept, champion)
    }

    /// Breeds generation after generation until the stop criterion halts,
    /// and returns the best of the leaders of the generations.
    pub fn solve<V: ScoreFn<S>, Q: ScoreFn<S>, O: Observer<S>>(
        &mut self,
        problem: &S::Problem,
        criterion: &Criterion<V, Q>,
        observer: &mut O,
    ) -> (best: S)
        requires
            old(self).wf(),
            all_fit(old(self).population@, problem),
        ensures
            final(self).wf(),
            final(self).population@.len() == old(self).population@.len(),
            all_fit(final(self).population@, problem),
            fits(&best, problem),
            criterion.graded(problem, &best),
            // The stop criterion was reset, asked once per generation, and
            // obeyed.
            stops_at_end(old(self).stop_criteria.fresh(), final(self).ticks@),
            final(self).stop_criteria == state_after(
                old(self).stop_criteria.fresh(),
                final(self).ticks@,
            ),
            final(self).generations == counted(final(self).ticks@.len() as int),
            // One leader per generation; the first is a founder that no
            // founder displaces.
            final(self).path@.len() == final(self).ticks@.len(),
            exists|i: int|
                0 <= i < old(self).population@.len() && final(self).path@[0] == criterion.measured::<S>(
                    problem,
                    (#[trigger] old(self).population@[i]).payload(),
                ),
            forall|i: int|
                0 <= i < old(self).population@.len() ==> !criterion.supersedes(
                    criterion.measured::<S>(problem, (#[trigger] old(self).population@[i]).payload()),
                    final(self).path@[0],
                ),
            // The result is the running best of the leaders, and what the
            // stop criterion saw is the running best so far.
            best.eval() == running_best(
                criterion.maximize,
                final(self).path@,
                final(self).path@.len() as int,
            ),
            forall|i: int|
                0 <= i < final(self).ticks@.len() ==> #[trigger] final(self).ticks@[i] == criterion.merit(
                    running_best(criterion.maximize, final(self).path@, i + 1),
                ),
            forall|i: int|
                0 <= i < old(self).population@.len() ==> !criterion.supersedes(
                    criterion.measured::<S>(problem, (#[trigger] old(self).population@[i]).payload()),
                    best.eval(),
                ),
            // Once a leader is feasible the best stays feasible and its merit
            // never falls.
            final(self).path@[0].feasible ==> best.eval().feasible && never_falls(final(self).ticks@),
            // Every generation was bred from the one before it.
            final(self).herds@[0] == old(self).population@,
            final(self).herds@[final(self).herds@.len() - 1] == final(self).population@,
            generations_by_the_rule(
                criterion,
                problem,
                old(self).mutate_num,
                old(self).mutate_den,
                old(self).selection,
                old(self).elitism,
                final(self).herds@,
                final(self).path@,
            ),
            // The observer was told of every generation, in order, and then
            // of the end.
            final(observer).seen() == (old(observer).seen() + told(
                problem.id(),
                criterion.maximize,
                final(self).path@,
                0,
                final(self).ticks@.len() as int,
            )).push(closing(problem.id(), final(self).ticks@.len() as int)),
    {
        let ghost fresh: St = self.stop_criteria.fresh();
        let ghost founders: Seq<S> = self.population@;
        let ghost maximize: bool = criterion.maximize;
        let ghost heard: Seen = observer.seen();
        let ghost pid: u32 = problem.id();
        self.stop_criteria.reset();
        self.generations = 0;
        self.ticks = Ghost(Seq::empty());
        self.path = Ghost(Seq::empty());
        self.herds = Ghost(Seq::empty().push(self.population@));
        let ghost rate_num: u32 = self.mutate_num;
        let ghost rate_den: u32 = self.mutate_den;
        let ghost elitism: Elitism = self.elitism;
        let ghost selection: Selection = self.selection;
        let mut best: Option<S> = None;
        loop
            invariant_except_break
                forall|i: int| 0 <= i < self.ticks@.len() ==> !#[trigger] halts_at(fresh, self.ticks@, i),
            invariant
                maximize == criterion.maximize,
                self.wf(),
                self.population@.len() == founders.len(),
                all_fit(self.population@, problem),
                self.path@.len() == self.ticks@.len(),
                self.mutate_num == rate_num,
                self.mutate_den == rate_den,
                self.elitism == elitism,
                self.selection == selection,
                self.herds@[0] == founders,
                self.herds@[self.herds@.len() - 1] == self.population@,
                generations_by_the_rule(
                    criterion,
                    problem,
                    rate_num,
                    rate_den,
                    selection,
                    elitism,
                    self.herds@,
                    self.path@,
                ),
                best.is_none() <==> self.ticks@.len() == 0,
                best.is_none() ==> self.population@ == founders,
                best matches Some(b) ==> {
                    &&& fits(&b, problem)
                    &&& criterion.graded(problem, &b)
                    &&& b.eval() == running_best(maximize, self.path@, self.path@.len() as int)
                    &&& exists|i: int|
                        0 <= i < founders.len() && self.path@[0] == criterion.measured::<S>(
                            problem,
                            (#[trigger] founders[i]).payload(),
                        )
                    &&& forall|i: int|
                        0 <= i < founders.len() ==> !criterion.supersedes(
                            criterion.measured::<S>(problem, (#[trigger] founders[i]).payload()),
                            self.path@[0],
                        )
                },
                forall|i: int|
                    0 <= i < self.ticks@.len() ==> #[trigger] self.ticks@[i] == merit_of(
                        maximize,
                        running_best(maximize, self.path@, i + 1),
                    ),
                self.stop_criteria.wf(),
                self.stop_criteria == state_after(fresh, self.ticks@),
                self.generations == counted(self.ticks@.len() as int),
                pid == problem.id(),
                observer.seen() == heard + told(pid, maximize, self.path@, 0, self.ticks@.len() as int),
            ensures
                best.is_some(),
                stops_at_end(fresh, self.ticks@),
            decreases self.stop_criteria.fuel(),
        {
            let ghost before: Option<S> = best;
            let ghost parents: Seq<S> = self.population@;
            let ghost path = self.path@;
            let ghost ticks = self.ticks@;
            let (kept, champion) = self.advance(problem, criterion, best);
            if self.generations < u64::MAX {
                self.generations = self.generations + 1;
            }
            proof {
                lemma_generation_added(
                    criterion,
                    problem,
                    rate_num,
                    rate_den,
                    selection,
                    elitism,
                    self.herds@,
                    path,
                    &champion,
                    self.population@,
                );
            }
            self.herds = Ghost(self.herds@.push(self.population@));
            observer.observe(self.generations, problem, Some(&kept), Some(&champion), false);
            let merit: i128 = criterion.merit_value(&kept.get_eval());
            proof {
                let longer = path.push(champion.eval());
                lemma_run_extended(fresh, ticks, merit);
                assert(longer[longer.len() - 1] == champion.eval());
                if before.is_none() {
                    assert(parents == founders);
                    assert(longer[0] == champion.eval());
                    let w = choose|i: int|
                        0 <= i < parents.len() && champion.payload() == (#[trigger] parents[i]).payload();
                    assert(longer[0] == criterion.measured::<S>(problem, founders[w].payload()));
                    assert forall|i: int| 0 <= i < founders.len() implies !criterion.supersedes(
                        criterion.measured::<S>(problem, (#[trigger] founders[i]).payload()),
                        longer[0],
                    ) by {
                        assert(!criterion.supersedes(
                            criterion.measured::<S>(problem, parents[i].payload()),
                            champion.eval(),
                        ));
                    }
                } else {
                    lemma_running_best_extended(maximize, path, champion.eval(), path.len() as int);
                    assert(longer[0] == path[0]);
                }
                assert(kept.eval() == running_best(maximize, longer, longer.len() as int));
                lemma_heard_extended(
                    heard,
                    pid,
                    maximize,
                    path,
                    champion.eval(),
                    0,
                    ticks.len() as int,
                    notice_of(self.generations, problem, Some(&kept), Some(&champion), false),
                );
                assert forall|i: int| 0 <= i < ticks.len() + 1 implies #[trigger] ticks.push(merit)[i]
                    == merit_of(maximize, running_best(maximize, longer, i + 1)) by {
                    if i < ticks.len() {
                        lemma_running_best_extended(maximize, path, champion.eval(), i + 1);
                    }
                }
            }
            self.path = Ghost(self.path@.push(champion.eval()));
            self.ticks = Ghost(self.ticks@.push(merit));
            let stop: bool = self.stop_criteria.should_stop(merit);
            best = Some(kept);
            if stop {
                break ;
            }
        }
        proof {
            let path = self.path@;
            let ticks = self.ticks@;
            let top = running_best(maximize, path, path.len() as int);
            lemma_running_best_leads(maximize, path, path.len() as int);
            lemma_running_best_rises(maximize, path, 1, path.len() as int);
            assert forall|i: int| 0 <= i < founders.len() implies !criterion.supersedes(
                criterion.measured::<S>(problem, (#[trigger] founders[i]).payload()),
                top,
            ) by {
                assert(!criterion.supersedes(
                    criterion.measured::<S>(problem, founders[i].payload()),
                    path[0],
                ));
            }
            if path[0].feasible {
                assert forall|i: int, j: int| 0 <= i <= j < ticks.len() implies ticks[i] <= ticks[j] by {
                    lemma_running_best_rises(maximize, path, 1, i + 1);
                    lemma_running_best_rises(maximize, path, i + 1, j + 1);
                }
            }
        }
        observer.observe(self.generations, problem, None, None, true);
        best.unwrap()
    }
}

} // verus!
