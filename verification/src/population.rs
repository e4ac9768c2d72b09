use vstd::prelude::*;
use crate::base::{Solution, ScoreFn, fits};
use crate::chromosome::{Chromosome, crossover, mutate, mutated, spliced, lemma_crossover_conserves};
use crate::criterion::{Criterion, supersedes_of};
use crate::evaluation::Evaluation;
use crate::rng::{gen_below, gen_ratio};
use crate::selection::{Selection, select, selected, selection_fits, merits_in_range, wheel_limit};

verus! {

/// Every member is a point of the search space of `problem`.
pub open spec fn all_fit<S: Solution>(population: Seq<S>, problem: &S::Problem) -> bool {
    forall|i: int| 0 <= i < population.len() ==> fits(&#[trigger] population[i], problem)
}

/// Every member carries the evaluation of its own payload.
pub open spec fn all_graded<S: Solution, V: ScoreFn<S>, Q: ScoreFn<S>>(
    criterion: &Criterion<V, Q>,
    population: Seq<S>,
    problem: &S::Problem,
) -> bool {
    forall|i: int| 0 <= i < population.len() ==> criterion.graded(problem, &#[trigger] population[i])
}

/// Every member has at least two loci, so that a crossover point exists.
pub open spec fn all_crossable<S: Chromosome>(population: Seq<S>) -> bool {
    forall|i: int| 0 <= i < population.len() ==> S::genes((#[trigger] population[i]).payload()).len() >= 2
}

/// The member at `index` leads the population: no member displaces it, and
/// it displaces every member before it.
pub open spec fn leads<S: Solution>(maximize: bool, population: Seq<S>, index: int) -> bool {
    &&& 0 <= index < population.len()
    &&& forall|j: int|
        0 <= j < population.len() ==> !supersedes_of(
            maximize,
            (#[trigger] population[j]).eval(),
            population[index].eval(),
        )
    &&& forall|j: int|
        0 <= j < index ==> supersedes_of(
            maximize,
            population[index].eval(),
            (#[trigger] population[j]).eval(),
        )
}

/// `champion` is a copy of the leader of `population` as an evaluation finds
/// it: no member's evaluation displaces the champion's, and the champion's
/// displaces that of every member before it.
pub open spec fn champion_of<S: Solution, V: ScoreFn<S>, Q: ScoreFn<S>>(
    criterion: &Criterion<V, Q>,
    problem: &S::Problem,
    population: Seq<S>,
    champion: &S,
) -> bool {
    exists|lead: int|
        {
            &&& 0 <= lead < population.len()
            &&& champion.payload() == (#[trigger] population[lead]).payload()
            &&& champion.eval() == criterion.measured::<S>(problem, population[lead].payload())
            &&& forall|j: int|
                0 <= j < population.len() ==> !criterion.supersedes(
                    criterion.measured::<S>(problem, (#[trigger] population[j]).payload()),
                    champion.eval(),
                )
            &&& forall|j: int|
                0 <= j < lead ==> criterion.supersedes(
                    champion.eval(),
                    criterion.measured::<S>(problem, (#[trigger] population[j]).payload()),
                )
        }
}

/// Evaluates every member in place.
pub fn evaluate_all<S: Solution, V: ScoreFn<S>, Q: ScoreFn<S>>(
    criterion: &Criterion<V, Q>,
    problem: &S::Problem,
    population: &mut Vec<S>,
)
    requires
        all_fit(old(population)@, problem),
    ensures
        final(population)@.len() == old(population)@.len(),
        forall|i: int|
            0 <= i < old(population)@.len() ==> (#[trigger] final(population)@[i]).payload() == old(
                population,
            )@[i].payload(),
        forall|i: int|
            0 <= i < old(population)@.len() ==> (#[trigger] final(population)@[i]).eval()
                == criterion.measured::<S>(problem, old(population)@[i].payload()),
        all_fit(final(population)@, problem),
        all_graded(criterion, final(population)@, problem),
{
    let n: usize = population.len();
    let mut i: usize = 0;
    while i < n
        invariant
            i <= n,
            n == population@.len(),
            n == old(population)@.len(),
            forall|j: int|
                0 <= j < n ==> (#[trigger] population@[j]).payload() == old(population)@[j].payload(),
            forall|j: int|
                0 <= j < i ==> (#[trigger] population@[j]).eval() == criterion.measured::<S>(
                    problem,
                    old(population)@[j].payload(),
                ),
            all_fit(old(population)@, problem),
        decreases n - i,
    {
        assert(fits(&old(population)@[i as int], problem));
        criterion.evaluate(problem, &mut population[i]);
        i = i + 1;
    }
    assert forall|j: int| 0 <= j < population@.len() implies fits(
        &#[trigger] population@[j],
        problem,
    ) by {
        assert(fits(&old(population)@[j], problem));
    }
}

/// The merits of the members, in order.
pub fn merits_of<S: Solution, V, Q>(criterion: &Criterion<V, Q>, population: &Vec<S>) -> (merits: Vec<i128>)
    ensures
        merits@.len() == population@.len(),
        forall|i: int|
            0 <= i < population@.len() ==> #[trigger] merits@[i] == criterion.merit(
                population@[i].eval(),
            ),
        merits_in_range(merits@),
{
    let mut merits: Vec<i128> = Vec::new();
    let mut i: usize = 0;
    while i < population.len()
        invariant
            i <= population@.len(),
            merits@.len() == i,
            forall|j: int|
                0 <= j < i ==> #[trigger] merits@[j] == criterion.merit(population@[j].eval()),
            merits_in_range(merits@),
        decreases population@.len() - i,
    {
        let merit: i128 = criterion.merit_value(&population[i].get_eval());
        merits.push(merit);
        i = i + 1;
    }
    merits
}

/// The index of the member that leads the population.
pub fn leader<S: Solution, V, Q>(criterion: &Criterion<V, Q>, population: &Vec<S>) -> (index: usize)
    requires
        population@.len() > 0,
    ensures
        leads(criterion.maximize, population@, index as int),
{
    let mut index: usize = 0;
    let mut i: usize = 1;
    while i < population.len()
        invariant
            1 <= i <= population@.len(),
            index < i,
            leads(criterion.maximize, population@.take(i as int), index as int),
        decreases population@.len() - i,
    {
        let ghost seen = population@.take(i as int);
        let ghost next = population@.take(i + 1);
        let challenger: Evaluation = population[i].get_eval();
        let holder: Evaluation = population[index].get_eval();
        if criterion.displaces(&challenger, &holder) {
            proof {
                assert forall|j: int| 0 <= j < next.len() implies !supersedes_of(
                    criterion.maximize,
                    (#[trigger] next[j]).eval(),
                    next[i as int].eval(),
                ) by {
                    if j < i {
                        assert(seen[j] == next[j]);
                        assert(!supersedes_of(criterion.maximize, seen[j].eval(), seen[index as int].eval()));
                    }
                }
                assert forall|j: int| 0 <= j < i implies supersedes_of(
                    criterion.maximize,
                    next[i as int].eval(),
                    (#[trigger] next[j]).eval(),
                ) by {
                    assert(seen[j] == next[j]);
                    assert(!supersedes_of(criterion.maximize, seen[j].eval(), seen[index as int].eval()));
                }
            }
            index = i;
        } else {
            proof {
                assert forall|j: int| 0 <= j < next.len() implies !supersedes_of(
                    criterion.maximize,
                    (#[trigger] next[j]).eval(),
                    next[index as int].eval(),
                ) by {
                    if j < i {
                        assert(seen[j] == next[j]);
                    }
                }
                assert forall|j: int| 0 <= j < index implies supersedes_of(
                    criterion.maximize,
                    next[index as int].eval(),
                    (#[trigger] next[j]).eval(),
                ) by {
                    assert(seen[j] == next[j]);
                }
            }
        }
        i = i + 1;
    }
    assert(population@.take(i as int) == population@);
    index
}

/// Whether every member has at least two loci.
pub fn crossable<S: Chromosome>(population: &Vec<S>) -> (ok: bool)
    ensures
        ok == all_crossable(population@),
{
    let mut i: usize = 0;
    while i < population.len()
        invariant
            i <= population@.len(),
            all_crossable(population@.take(i as int)),
        decreases population@.len() - i,
    {
        if population[i].length() < 2 {
            return false;
        }
        proof {
            let seen = population@.take(i as int);
            let next = population@.take(i + 1);
            assert forall|j: int| 0 <= j < next.len() implies S::genes(
                (#[trigger] next[j]).payload(),
            ).len() >= 2 by {
                if j < i {
                    assert(seen[j] == next[j]);
                }
            }
        }
        i = i + 1;
    }
    assert(population@.take(i as int) == population@);
    true
}

/// `first` and `second` are the two children of one single-point crossover
/// of two members that the selection operator can pick, cut strictly inside
/// the payload: `first` has the head of one parent and the tail of the
/// other, `second` the complementary halves.
pub open spec fn siblings<S: Chromosome>(
    population: Seq<S>,
    merits: Seq<i128>,
    selection: Selection,
    first: Seq<S::Gene>,
    second: Seq<S::Gene>,
) -> bool {
    exists|a: int, b: int, point: int|
        {
            &&& 0 <= a < population.len()
            &&& 0 <= b < population.len()
            &&& selected(selection, merits, a)
            &&& selected(selection, merits, b)
            &&& 1 <= point < S::genes(population[a].payload()).len()
            &&& first == #[trigger] spliced(
                S::genes(population[a].payload()),
                S::genes(population[b].payload()),
                point,
            )
            &&& second == spliced(
                S::genes(population[b].payload()),
                S::genes(population[a].payload()),
                point,
            )
        }
}

/// `child` is a single-point crossover of two members that the selection
/// operator can pick, cut strictly inside the payload: the head of one and
/// the tail of the other.
pub open spec fn bred_from<S: Chromosome>(
    population: Seq<S>,
    merits: Seq<i128>,
    selection: Selection,
    child: Seq<S::Gene>,
) -> bool {
    exists|a: int, b: int, point: int|
        {
            &&& 0 <= a < population.len()
            &&& 0 <= b < population.len()
            &&& selected(selection, merits, a)
            &&& selected(selection, merits, b)
            &&& 1 <= point < S::genes(population[a].payload()).len()
            &&& child == #[trigger] spliced(
                S::genes(population[a].payload()),
                S::genes(population[b].payload()),
                point,
            )
        }
}

/// What is bred from a population depends on the payloads of its members
/// alone.
pub proof fn lemma_bred_from_payloads<S: Chromosome>(
    one: Seq<S>,
    other: Seq<S>,
    merits: Seq<i128>,
    selection: Selection,
    child: Seq<S::Gene>,
)
    requires
        one.len() == other.len(),
        forall|i: int| 0 <= i < one.len() ==> (#[trigger] one[i]).payload() == other[i].payload(),
        bred_from(one, merits, selection, child),
    ensures
        bred_from(other, merits, selection, child),
{
    let (a, b, point) = choose|a: int, b: int, point: int|
        {
            &&& 0 <= a < one.len()
            &&& 0 <= b < one.len()
            &&& selected(selection, merits, a)
            &&& selected(selection, merits, b)
            &&& 1 <= point < S::genes(one[a].payload()).len()
            &&& child == #[trigger] spliced(
                S::genes(one[a].payload()),
                S::genes(one[b].payload()),
                point,
            )
        };
    assert(one[a].payload() == other[a].payload());
    assert(one[b].payload() == other[b].payload());
    assert(child == spliced(S::genes(other[a].payload()), S::genes(other[b].payload()), point));
}

/// Every member is a fresh child of two members of `parents`, and the
/// members come in pairs of siblings, but for the last of an odd number.
pub open spec fn bred<S: Chromosome>(
    parents: Seq<S>,
    merits: Seq<i128>,
    selection: Selection,
    children: Seq<S>,
) -> bool {
    &&& forall|c: int|
        0 <= c < children.len() ==> (#[trigger] children[c]).eval() == Evaluation::of(0, 0) && bred_from(
            parents,
            merits,
            selection,
            S::genes(children[c].payload()),
        )
    &&& forall|k: int|
        0 <= k && 2 * k + 1 < children.len() ==> siblings(
            parents,
            merits,
            selection,
            S::genes((#[trigger] children[2 * k]).payload()),
            S::genes(children[2 * k + 1].payload()),
        )
}

/// Picks two parents and recombines them at a point chosen uniformly among
/// those strictly inside the payload.
pub fn mate<S: Chromosome>(
    rng: &mut rand::rngs::StdRng,
    population: &Vec<S>,
    merits: &Vec<i128>,
    selection: Selection,
    problem: &S::Problem,
) -> (children: (S, S))
    requires
        0 < population@.len() <= wheel_limit(),
        merits@.len() == population@.len(),
        merits_in_range(merits@),
        selection_fits(selection, population@.len() as int),
        all_fit(population@, problem),
        all_crossable(population@),
    ensures
        fits(&children.0, problem),
        fits(&children.1, problem),
        children.0.eval() == Evaluation::of(0, 0),
        children.1.eval() == Evaluation::of(0, 0),
        S::genes(children.0.payload()).len() >= 2,
        S::genes(children.1.payload()).len() >= 2,
        siblings(
            population@,
            merits@,
            selection,
            S::genes(children.0.payload()),
            S::genes(children.1.payload()),
        ),
        bred_from(population@, merits@, selection, S::genes(children.0.payload())),
        bred_from(population@, merits@, selection, S::genes(children.1.payload())),
{
    let father: usize = select(rng, selection, merits);
    let mother: usize = select(rng, selection, merits);
    assert(fits(&population@[father as int], problem));
    assert(fits(&population@[mother as int], problem));
    assert(S::genes(population@[father as int].payload()).len() >= 2);
    let loci: usize = population[father].length();
    let point: usize = 1 + gen_below(rng, (loci - 1) as u128) as usize;
    let children = crossover(&population[father], &population[mother], point, problem);
    proof {
        let from_father = S::genes(population@[father as int].payload());
        let from_mother = S::genes(population@[mother as int].payload());
        S::lemma_same_length(
            population@[father as int].payload(),
            population@[mother as int].payload(),
            problem,
        );
        lemma_crossover_conserves(from_father, from_mother, point as int);
        assert(S::genes(children.0.payload()) == spliced(from_father, from_mother, point as int));
        assert(S::genes(children.1.payload()) == spliced(from_mother, from_father, point as int));
    }
    children
}

/// Breeds as many children as the population has members: parents are picked
/// by the selection operator and recombined at a uniformly chosen point, two
/// children at a time. Where one place is left, one of the two children,
/// chosen by a fair coin, takes it.
pub fn breed<S: Chromosome>(
    rng: &mut rand::rngs::StdRng,
    population: &Vec<S>,
    merits: &Vec<i128>,
    selection: Selection,
    problem: &S::Problem,
) -> (children: Vec<S>)
    requires
        0 < population@.len() <= wheel_limit(),
        merits@.len() == population@.len(),
        merits_in_range(merits@),
        selection_fits(selection, population@.len() as int),
        all_fit(population@, problem),
        all_crossable(population@),
    ensures
        children@.len() == population@.len(),
        all_fit(children@, problem),
        all_crossable(children@),
        bred(population@, merits@, selection, children@),
{
    let n: usize = population.len();
    let mut children: Vec<S> = Vec::new();
    while children.len() < n
        invariant
            n == population@.len(),
            0 < n <= wheel_limit(),
            children@.len() <= n,
            children@.len() % 2 == 0 || children@.len() == n,
            merits@.len() == n,
            merits_in_range(merits@),
            selection_fits(selection, n as int),
            all_fit(population@, problem),
            all_crossable(population@),
            all_fit(children@, problem),
            all_crossable(children@),
            bred(population@, merits@, selection, children@),
        decreases n - children@.len(),
    {
        let (first, second) = mate(rng, population, merits, selection, problem);
        let ghost before = children@;
        let ghost one = S::genes(first.payload());
        let ghost two = S::genes(second.payload());
        if n - children.len() >= 2 {
            children.push(first);
            children.push(second);
            assert forall|i: int| 0 <= i < children@.len() implies fits(
                &#[trigger] children@[i],
                problem,
            ) && S::genes(children@[i].payload()).len() >= 2 && children@[i].eval() == Evaluation::of(
                0,
                0,
            ) && bred_from(population@, merits@, selection, S::genes(children@[i].payload())) by {
                if i < before.len() {
                    assert(children@[i] == before[i]);
                }
            }
            assert forall|k: int| 0 <= k && 2 * k + 1 < children@.len() implies siblings(
                population@,
                merits@,
                selection,
                S::genes((#[trigger] children@[2 * k]).payload()),
                S::genes(children@[2 * k + 1].payload()),
            ) by {
                if 2 * k + 1 < before.len() {
                    assert(children@[2 * k] == before[2 * k]);
                    assert(children@[2 * k + 1] == before[2 * k + 1]);
                }
            }
        } else {
            let kept: S = if gen_ratio(rng, 1, 2) {
                first
            } else {
                second
            };
            children.push(kept);
            assert forall|i: int| 0 <= i < children@.len() implies fits(
                &#[trigger] children@[i],
                problem,
            ) && S::genes(children@[i].payload()).len() >= 2 && children@[i].eval() == Evaluation::of(
                0,
                0,
            ) && bred_from(population@, merits@, selection, S::genes(children@[i].payload())) by {
                if i < before.len() {
                    assert(children@[i] == before[i]);
                }
            }
            assert forall|k: int| 0 <= k && 2 * k + 1 < children@.len() implies siblings(
                population@,
                merits@,
                selection,
                S::genes((#[trigger] children@[2 * k]).payload()),
                S::genes(children@[2 * k + 1].payload()),
            ) by {
                assert(children@[2 * k] == before[2 * k]);
                assert(children@[2 * k + 1] == before[2 * k + 1]);
            }
        }
    }
    children
}

/// Mutates every member in place.
pub fn mutate_all<S: Chromosome>(
    rng: &mut rand::rngs::StdRng,
    population: &mut Vec<S>,
    rate_num: u32,
    rate_den: u32,
    problem: &S::Problem,
)
    requires
        all_fit(old(population)@, problem),
        all_crossable(old(population)@),
        rate_den > 0,
        rate_num <= rate_den,
    ensures
        final(population)@.len() == old(population)@.len(),
        all_fit(final(population)@, problem),
        all_crossable(final(population)@),
        forall|i: int|
            0 <= i < old(population)@.len() ==> (#[trigger] final(population)@[i]).eval() == old(
                population,
            )@[i].eval(),
        forall|i: int|
            0 <= i < old(population)@.len() ==> mutated::<S>(
                old(population)@[i].payload(),
                (#[trigger] final(population)@[i]).payload(),
                rate_num,
                rate_den,
            ),
        rate_num == 0 ==> forall|i: int|
            0 <= i < old(population)@.len() ==> (#[trigger] final(population)@[i]).payload() == old(
                population,
            )@[i].payload(),
{
    let n: usize = population.len();
    let mut i: usize = 0;
    while i < n
        invariant
            i <= n,
            n == population@.len(),
            n == old(population)@.len(),
            all_fit(population@, problem),
            all_crossable(population@),
            rate_den > 0,
            rate_num <= rate_den,
            forall|j: int| 0 <= j < n ==> (#[trigger] population@[j]).eval() == old(population)@[j].eval(),
            forall|j: int|
                0 <= j < i ==> mutated::<S>(
                    old(population)@[j].payload(),
                    (#[trigger] population@[j]).payload(),
                    rate_num,
                    rate_den,
                ),
            forall|j: int| i <= j < n ==> (#[trigger] population@[j]).payload() == old(population)@[j].payload(),
            rate_num == 0 ==> forall|j: int|
                0 <= j < n ==> (#[trigger] population@[j]).payload() == old(population)@[j].payload(),
        decreases n - i,
    {
        let ghost before = population@;
        assert(fits(&before[i as int], problem));
        assert(S::genes(before[i as int].payload()).len() >= 2);
        mutate(rng, &mut population[i], rate_num, rate_den, problem);
        assert forall|j: int| 0 <= j < population@.len() implies fits(
            &#[trigger] population@[j],
            problem,
        ) && S::genes(population@[j].payload()).len() >= 2 by {
            if j != i {
                assert(population@[j] == before[j]);
                assert(fits(&before[j], problem));
                assert(S::genes(before[j].payload()).len() >= 2);
            }
        }
        i = i + 1;
    }
}

} // verus!
