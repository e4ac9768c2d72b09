use vstd::prelude::*;
use crate::evaluation::Evaluation;
use crate::base::{Problem, Solution, ScoreFn, StateChanger, fits};
use crate::chromosome::{Chromosome, spliced};
use crate::rng::{from_entropy, seed_from_u64, gen_below, gen_ratio};

verus! {

/// The sum of the entries of `amounts` at the places that `picked` marks.
pub open spec fn picked_total(amounts: Seq<u64>, picked: Seq<bool>) -> int
    decreases amounts.len(),
{
    if amounts.len() == 0 || picked.len() != amounts.len() {
        0
    } else {
        picked_total(amounts.drop_last(), picked.drop_last()) + if picked.last() {
            amounts.last() as int
        } else {
            0
        }
    }
}

/// The sum of all entries.
pub open spec fn total(amounts: Seq<u64>) -> int
    decreases amounts.len(),
{
    if amounts.len() == 0 {
        0
    } else {
        total(amounts.drop_last()) + amounts.last()
    }
}

/// The total over the picked items lies between zero and the total over all.
pub proof fn lemma_picked_total_bounds(amounts: Seq<u64>, picked: Seq<bool>)
    ensures
        0 <= picked_total(amounts, picked) <= total(amounts),
    decreases amounts.len(),
{
    if amounts.len() != 0 {
        lemma_picked_total_bounds(amounts.drop_last(), picked.drop_last());
        if picked.len() != amounts.len() {
            lemma_total_nonnegative(amounts);
        }
    }
}

/// A total is never negative.
pub proof fn lemma_total_nonnegative(amounts: Seq<u64>)
    ensures
        0 <= total(amounts),
    decreases amounts.len(),
{
    if amounts.len() != 0 {
        lemma_total_nonnegative(amounts.drop_last());
    }
}

/// A 0/1 knapsack instance: item weights and values, and a capacity.
#[derive(Debug)]
pub struct KnapsackProblem {
    pub id: u32,
    pub weights: Vec<u64>,
    pub values: Vec<u64>,
    pub capacity: u64,
}

impl KnapsackProblem {
    /// One weight and one value per item, and totals small enough that every
    /// selection has a value and a penalty.
    pub open spec fn wf(&self) -> bool {
        &&& self.weights@.len() == self.values@.len()
        &&& total(self.weights@) <= i64::MAX
        &&& total(self.values@) <= i64::MAX
    }

    /// Builds an instance, or nothing when the lists differ in length or a
    /// total does not fit.
    pub fn new(id: u32, weights: Vec<u64>, values: Vec<u64>, capacity: u64) -> (made: Option<Self>)
        ensures
            made.is_some() <==> {
                &&& weights@.len() == values@.len()
                &&& total(weights@) <= i64::MAX
                &&& total(values@) <= i64::MAX
            },
            made matches Some(p) ==> {
                &&& p.wf()
                &&& p.id == id
                &&& p.weights@ == weights@
                &&& p.values@ == values@
                &&& p.capacity == capacity
            },
    {
        if weights.len() != values.len() {
            return None;
        }
        if !sum_fits(&weights) || !sum_fits(&values) {
            return None;
        }
        Some(KnapsackProblem { id, weights, values, capacity })
    }
}

/// Whether the entries add up to at most `i64::MAX`.
fn sum_fits(amounts: &Vec<u64>) -> (ok: bool)
    ensures
        ok == (total(amounts@) <= i64::MAX),
{
    let limit: u64 = 0x7fff_ffff_ffff_ffff;
    let mut sum: u64 = 0;
    let mut i: usize = 0;
    while i < amounts.len()
        invariant
            i <= amounts@.len(),
            sum == total(amounts@.take(i as int)),
            sum <= limit,
            limit == i64::MAX,
        decreases amounts@.len() - i,
    {
        let item: u64 = amounts[i];
        proof {
            assert(amounts@.take(i + 1).drop_last() == amounts@.take(i as int));
            lemma_total_prefix(amounts@, i + 1);
        }
        if item > limit - sum {
            return false;
        }
        sum = sum + item;
        i = i + 1;
    }
    proof {
        assert(amounts@.take(i as int) == amounts@);
    }
    true
}

/// The total of a prefix never exceeds the total of the whole.
pub proof fn lemma_total_prefix(amounts: Seq<u64>, n: int)
    requires
        0 <= n <= amounts.len(),
    ensures
        total(amounts.take(n)) <= total(amounts),
    decreases amounts.len() - n,
{
    if n < amounts.len() {
        lemma_total_prefix(amounts, n + 1);
        assert(amounts.take(n + 1).drop_last() == amounts.take(n));
    } else {
        assert(amounts.take(n) == amounts);
    }
}

impl Clone for KnapsackProblem {
    fn clone(&self) -> (copy: Self)
        ensures
            copy.id == self.id,
            copy.weights@ == self.weights@,
            copy.values@ == self.values@,
            copy.capacity == self.capacity,
    {
        let weights = self.weights.clone();
        let values = self.values.clone();
        assert(weights@ =~= self.weights@);
        assert(values@ =~= self.values@);
        KnapsackProblem { id: self.id, weights, values, capacity: self.capacity }
    }
}

impl Problem for KnapsackProblem {
    open spec fn id(&self) -> u32 {
        self.id
    }

    fn get_id(&self) -> (id: u32) {
        self.id
    }
}

/// A selection of items, one flag per item.
#[derive(Debug)]
pub struct KnapsackSolution {
    pub picked_items: Vec<bool>,
    pub eval: Evaluation,
}

impl KnapsackSolution {
    /// The selection with these flags and the zeroed evaluation.
    pub fn new(picked_items: Vec<bool>) -> (s: Self)
        ensures
            s.picked_items@ == picked_items@,
            s.eval == Evaluation::of(0, 0),
    {
        KnapsackSolution { picked_items, eval: Evaluation::default() }
    }

    /// A selection of `num_items` flags, each set by a fair coin.
    pub fn random_init(seed: u64, num_items: usize) -> (s: Self)
        ensures
            s.picked_items@.len() == num_items,
            s.eval == Evaluation::of(0, 0),
    {
        let mut rng = seed_from_u64(seed);
        let mut picked_items: Vec<bool> = Vec::new();
        let mut i: usize = 0;
        while i < num_items
            invariant
                i <= num_items,
                picked_items@.len() == i,
            decreases num_items - i,
        {
            picked_items.push(gen_ratio(&mut rng, 1, 2));
            i = i + 1;
        }
        KnapsackSolution { picked_items, eval: Evaluation::default() }
    }
}

impl Clone for KnapsackSolution {
    fn clone(&self) -> (copy: Self)
        ensures
            copy.picked_items@ == self.picked_items@,
            copy.eval == self.eval,
    {
        self.duplicate()
    }
}

impl Solution for KnapsackSolution {
    type Problem = KnapsackProblem;

    type Payload = Seq<bool>;

    open spec fn payload(&self) -> Seq<bool> {
        self.picked_items@
    }

    open spec fn eval(&self) -> Evaluation {
        self.eval
    }

    open spec fn payload_fits(payload: Seq<bool>, problem: &KnapsackProblem) -> bool {
        problem.wf() && payload.len() == problem.weights@.len()
    }

    fn get_eval(&self) -> (e: Evaluation) {
        self.eval
    }

    fn get_value(&self) -> (v: i64) {
        self.eval.value
    }

    fn set_eval(&mut self, e: Evaluation) {
        self.eval = e;
    }

    fn duplicate(&self) -> (copy: Self) {
        let picked_items = self.picked_items.clone();
        assert(picked_items@ =~= self.picked_items@);
        KnapsackSolution { picked_items, eval: self.eval }
    }
}

/// The sum of `amounts` over the picked items.
fn sum_picked(amounts: &Vec<u64>, picked: &Vec<bool>) -> (sum: u64)
    requires
        amounts@.len() == picked@.len(),
        total(amounts@) <= i64::MAX,
    ensures
        sum == picked_total(amounts@, picked@),
        sum <= i64::MAX,
{
    let mut sum: u64 = 0;
    let mut i: usize = 0;
    proof {
        lemma_picked_total_bounds(amounts@, picked@);
    }
    while i < amounts.len()
        invariant
            i <= amounts@.len(),
            amounts@.len() == picked@.len(),
            sum == picked_total(amounts@.take(i as int), picked@.take(i as int)),
            total(amounts@) <= i64::MAX,
        decreases amounts@.len() - i,
    {
        proof {
            assert(amounts@.take(i + 1).drop_last() == amounts@.take(i as int));
            assert(picked@.take(i + 1).drop_last() == picked@.take(i as int));
            lemma_picked_total_bounds(amounts@.take(i + 1), picked@.take(i + 1));
            lemma_total_prefix(amounts@, i + 1);
        }
        if picked[i] {
            sum = sum + amounts[i];
        }
        i = i + 1;
    }
    proof {
        assert(amounts@.take(i as int) == amounts@);
        assert(picked@.take(i as int) == picked@);
    }
    sum
}

/// The total value of a selection.
pub open spec fn selection_value(problem: &KnapsackProblem, picked: Seq<bool>) -> int {
    picked_total(problem.values@, picked)
}

/// The amount by which a selection exceeds the capacity, as a number that is
/// zero or negative.
pub open spec fn selection_penalty(problem: &KnapsackProblem, picked: Seq<bool>) -> int {
    let weight = picked_total(problem.weights@, picked);
    if weight > problem.capacity {
        problem.capacity - weight
    } else {
        0
    }
}

/// The objective of the knapsack: the total value of the picked items.
pub struct KnapsackValue;

/// The penalty of the knapsack: the overweight, negated.
pub struct KnapsackPenalty;

/// The total value of the picked items.
pub fn value(problem: &KnapsackProblem, current: &KnapsackSolution) -> (v: i64)
    requires
        fits(current, problem),
    ensures
        v == selection_value(problem, current.picked_items@),
        v >= 0,
{
    sum_picked(&problem.values, &current.picked_items) as i64
}

/// Zero while the picked items fit the capacity, otherwise the capacity minus
/// their weight.
pub fn penalty(problem: &KnapsackProblem, current: &KnapsackSolution) -> (q: i64)
    requires
        fits(current, problem),
    ensures
        q == selection_penalty(problem, current.picked_items@),
        q <= 0,
{
    let weight: u64 = sum_picked(&problem.weights, &current.picked_items);
    if weight > problem.capacity {
        -((weight - problem.capacity) as i64)
    } else {
        0
    }
}

impl ScoreFn<KnapsackSolution> for KnapsackValue {
    open spec fn of(&self, problem: &KnapsackProblem, payload: Seq<bool>) -> i64 {
        selection_value(problem, payload) as i64
    }

    fn measure(&self, problem: &KnapsackProblem, solution: &KnapsackSolution) -> (v: i64) {
        value(problem, solution)
    }
}

impl ScoreFn<KnapsackSolution> for KnapsackPenalty {
    open spec fn of(&self, problem: &KnapsackProblem, payload: Seq<bool>) -> i64 {
        selection_penalty(problem, payload) as i64
    }

    fn measure(&self, problem: &KnapsackProblem, solution: &KnapsackSolution) -> (q: i64) {
        penalty(problem, solution)
    }
}

/// The mover of the knapsack: flips the flag of one item, chosen uniformly.
pub struct FlipOne {
    pub rng: rand::rngs::StdRng,
}

impl FlipOne {
    /// A mover whose generator is seeded by the operating system.
    pub fn new() -> Self {
        FlipOne { rng: from_entropy() }
    }

    /// A mover whose choices are fixed by `seed`.
    pub fn with_seed(seed: u64) -> Self {
        FlipOne { rng: seed_from_u64(seed) }
    }
}

/// The selection that differs from `picked` at `index` alone.
pub open spec fn flipped(picked: Seq<bool>, index: int) -> Seq<bool> {
    picked.update(index, !picked[index])
}

impl StateChanger<KnapsackSolution> for FlipOne {
    /// One flag is flipped; a selection without items stays as it is.
    open spec fn moves(&self, problem: &KnapsackProblem, before: Seq<bool>, after: Seq<bool>) -> bool {
        if before.len() == 0 {
            after == before
        } else {
            exists|i: int| 0 <= i < before.len() && after == #[trigger] flipped(before, i)
        }
    }

    fn change_state(&mut self, solution: &mut KnapsackSolution, problem: &KnapsackProblem)
        ensures
            final(solution).eval == old(solution).eval,
    {
        let n: usize = solution.picked_items.len();
        if n > 0 {
            let index: usize = gen_below(&mut self.rng, n as u128) as usize;
            let flag: bool = solution.picked_items[index];
            solution.picked_items.set(index, !flag);
            assert(solution.picked_items@ == flipped(old(solution).picked_items@, index as int));
        }
    }
}

impl Chromosome for KnapsackSolution {
    type Gene = bool;

    open spec fn genes(payload: Seq<bool>) -> Seq<bool> {
        payload
    }

    proof fn lemma_same_length(a: Seq<bool>, b: Seq<bool>, problem: &KnapsackProblem) {
    }

    fn length(&self) -> (n: usize) {
        self.picked_items.len()
    }

    fn cross(&self, other: &Self, point: usize, problem: &KnapsackProblem) -> (child: Self) {
        let n: usize = self.picked_items.len();
        let mut picked_items: Vec<bool> = Vec::new();
        let mut i: usize = 0;
        while i < n
            invariant
                i <= n,
                n == self.picked_items@.len(),
                n == other.picked_items@.len(),
                point <= n,
                picked_items@.len() == i,
                forall|j: int|
                    0 <= j < i ==> picked_items@[j] == spliced(
                        self.picked_items@,
                        other.picked_items@,
                        point as int,
                    )[j],
            decreases n - i,
        {
            let flag: bool = if i < point {
                self.picked_items[i]
            } else {
                other.picked_items[i]
            };
            picked_items.push(flag);
            i = i + 1;
        }
        assert(picked_items@ =~= spliced(self.picked_items@, other.picked_items@, point as int));
        KnapsackSolution { picked_items, eval: Evaluation::default() }
    }

    open spec fn perturbs(before: Seq<bool>, after: Seq<bool>, locus: int) -> bool {
        after == flipped(before, locus)
    }

    /// Flips the flag of one item.
    fn perturb(&mut self, locus: usize, problem: &KnapsackProblem) {
        let flag: bool = self.picked_items[locus];
        self.picked_items.set(locus, !flag);
    }
}

} // verus!
