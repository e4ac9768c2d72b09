use vstd::prelude::*;
use vstd::seq_lib::lemma_multiset_commutative;
use crate::base::{Solution, fits};
use crate::evaluation::Evaluation;
use crate::rng::gen_ratio;

verus! {

/// A candidate whose payload is a string of loci, so that two candidates can
/// be recombined and one can be perturbed locus by locus.
pub trait Chromosome: Solution {
    type Gene;

    /// The loci of a payload, in order.
    spec fn genes(payload: Self::Payload) -> Seq<Self::Gene>;

    /// All candidates of one problem have the same number of loci.
    proof fn lemma_same_length(a: Self::Payload, b: Self::Payload, problem: &Self::Problem)
        requires
            Self::payload_fits(a, problem),
            Self::payload_fits(b, problem),
        ensures
            Self::genes(a).len() == Self::genes(b).len(),
    ;

    fn length(&self) -> (n: usize)
        ensures
            n == Self::genes(self.payload()).len(),
    ;

    /// The child that takes the loci before `point` from `self` and the rest
    /// from `other`. It carries the zeroed evaluation.
    fn cross(&self, other: &Self, point: usize, problem: &Self::Problem) -> (child: Self)
        requires
            fits(self, problem),
            fits(other, problem),
            point <= Self::genes(self.payload()).len(),
        ensures
            fits(&child, problem),
            Self::genes(child.payload()) == spliced(
                Self::genes(self.payload()),
                Self::genes(other.payload()),
                point as int,
            ),
            child.eval() == Evaluation::of(0, 0),
    ;

    /// What a perturbation at `locus` can turn a payload into.
    spec fn perturbs(before: Self::Payload, after: Self::Payload, locus: int) -> bool;

    /// Changes the locus at `locus` and no other.
    fn perturb(&mut self, locus: usize, problem: &Self::Problem)
        requires
            fits(old(self), problem),
            locus < Self::genes(old(self).payload()).len(),
        ensures
            Self::perturbs(old(self).payload(), final(self).payload(), locus as int),
            fits(final(self), problem),
            final(self).eval() == old(self).eval(),
            Self::genes(final(self).payload()).len() == Self::genes(old(self).payload()).len(),
            forall|j: int|
                0 <= j < Self::genes(old(self).payload()).len() && j != locus ==> Self::genes(
                    final(self).payload(),
                )[j] == Self::genes(old(self).payload())[j],
    ;
}

/// The first `point` loci of `head`, then the loci of `tail` from `point` on.
pub open spec fn spliced<G>(head: Seq<G>, tail: Seq<G>, point: int) -> Seq<G> {
    head.take(point) + tail.skip(point)
}

/// Single-point crossover moves loci between the two children and neither
/// makes nor loses one: the loci of the two children together are, as a
/// multiset, the loci of the two parents together.
pub proof fn lemma_crossover_conserves<G>(a: Seq<G>, b: Seq<G>, point: int)
    requires
        a.len() == b.len(),
        0 <= point <= a.len(),
    ensures
        spliced(a, b, point).len() == a.len(),
        spliced(b, a, point).len() == a.len(),
        (spliced(a, b, point) + spliced(b, a, point)).to_multiset() =~= (a + b).to_multiset(),
{
    let a0 = a.take(point);
    let a1 = a.skip(point);
    let b0 = b.take(point);
    let b1 = b.skip(point);
    assert(a == a0 + a1);
    assert(b == b0 + b1);
    lemma_multiset_commutative(a0 + b1, b0 + a1);
    lemma_multiset_commutative(a0, b1);
    lemma_multiset_commutative(b0, a1);
    lemma_multiset_commutative(a, b);
    lemma_multiset_commutative(a0, a1);
    lemma_multiset_commutative(b0, b1);
}

/// Single-point crossover at `point`: the first child has the head of `a`
/// and the tail of `b`, the second the head of `b` and the tail of `a`.
pub fn crossover<S: Chromosome>(a: &S, b: &S, point: usize, problem: &S::Problem) -> (children: (S, S))
    requires
        fits(a, problem),
        fits(b, problem),
        point <= S::genes(a.payload()).len(),
    ensures
        fits(&children.0, problem),
        fits(&children.1, problem),
        S::genes(children.0.payload()) == spliced(
            S::genes(a.payload()),
            S::genes(b.payload()),
            point as int,
        ),
        S::genes(children.1.payload()) == spliced(
            S::genes(b.payload()),
            S::genes(a.payload()),
            point as int,
        ),
        (S::genes(children.0.payload()) + S::genes(children.1.payload())).to_multiset() =~= (S::genes(
            a.payload(),
        ) + S::genes(b.payload())).to_multiset(),
        children.0.eval() == Evaluation::of(0, 0),
        children.1.eval() == Evaluation::of(0, 0),
{
    proof {
        S::lemma_same_length(a.payload(), b.payload(), problem);
        lemma_crossover_conserves(S::genes(a.payload()), S::genes(b.payload()), point as int);
    }
    let first: S = a.cross(b, point, problem);
    let second: S = b.cross(a, point, problem);
    (first, second)
}

/// `trail` records one pass over the loci of `before` that ends in `after`:
/// from each entry to the next the locus of that number is perturbed or left
/// alone. At rate zero every locus is left alone, at rate one every locus is
/// perturbed.
pub open spec fn passes<S: Chromosome>(
    trail: Seq<S::Payload>,
    before: S::Payload,
    after: S::Payload,
    rate_num: u32,
    rate_den: u32,
) -> bool {
    &&& trail.len() == S::genes(before).len() + 1
    &&& trail[0] == before
    &&& trail[trail.len() - 1] == after
    &&& forall|j: int|
        0 <= j < trail.len() - 1 ==> {
            ||| rate_num < rate_den && #[trigger] trail[j + 1] == trail[j]
            ||| rate_num > 0 && S::perturbs(trail[j], trail[j + 1], j)
        }
}

/// A mutation at the given rate can turn `before` into `after`.
pub open spec fn mutated<S: Chromosome>(
    before: S::Payload,
    after: S::Payload,
    rate_num: u32,
    rate_den: u32,
) -> bool {
    exists|trail: Seq<S::Payload>| #[trigger] passes::<S>(trail, before, after, rate_num, rate_den)
}

/// At rate zero a mutation changes nothing.
pub proof fn lemma_mutated_at_rate_zero<S: Chromosome>(before: S::Payload, after: S::Payload, rate_den: u32)
    requires
        mutated::<S>(before, after, 0, rate_den),
    ensures
        after == before,
{
    let trail = choose|trail: Seq<S::Payload>| #[trigger] passes::<S>(trail, before, after, 0, rate_den);
    lemma_idle_trail::<S>(trail, trail.len() - 1);
}

/// A trail on which no locus is perturbed stays where it starts.
proof fn lemma_idle_trail<S: Chromosome>(trail: Seq<S::Payload>, n: int)
    requires
        0 <= n < trail.len(),
        forall|j: int| 0 <= j < trail.len() - 1 ==> #[trigger] trail[j + 1] == trail[j],
    ensures
        trail[n] == trail[0],
    decreases n,
{
    if n > 0 {
        lemma_idle_trail::<S>(trail, n - 1);
        assert(trail[(n - 1) + 1] == trail[n - 1]);
    }
}

/// Visits every locus in order and perturbs it with probability
/// `rate_num / rate_den`, independently of the others.
pub fn mutate<S: Chromosome>(
    rng: &mut rand::rngs::StdRng,
    child: &mut S,
    rate_num: u32,
    rate_den: u32,
    problem: &S::Problem,
)
    requires
        fits(old(child), problem),
        rate_den > 0,
        rate_num <= rate_den,
    ensures
        mutated::<S>(old(child).payload(), final(child).payload(), rate_num, rate_den),
        fits(final(child), problem),
        final(child).eval() == old(child).eval(),
        S::genes(final(child).payload()).len() == S::genes(old(child).payload()).len(),
        rate_num == 0 ==> final(child).payload() == old(child).payload(),
{
    let n: usize = child.length();
    let mut locus: usize = 0;
    let ghost mut trail: Seq<S::Payload> = Seq::empty().push(child.payload());
    while locus < n
        invariant
            locus <= n,
            n == S::genes(child.payload()).len(),
            n == S::genes(old(child).payload()).len(),
            fits(child, problem),
            child.eval() == old(child).eval(),
            rate_den > 0,
            rate_num <= rate_den,
            rate_num == 0 ==> child.payload() == old(child).payload(),
            trail.len() == locus + 1,
            trail[0] == old(child).payload(),
            trail[locus as int] == child.payload(),
            forall|j: int|
                0 <= j < locus ==> {
                    ||| rate_num < rate_den && #[trigger] trail[j + 1] == trail[j]
                    ||| rate_num > 0 && S::perturbs(trail[j], trail[j + 1], j)
                },
        decreases n - locus,
    {
        let ghost so_far = trail;
        if gen_ratio(rng, rate_num, rate_den) {
            child.perturb(locus, problem);
        }
        proof {
            trail = so_far.push(child.payload());
            assert forall|j: int| 0 <= j < locus + 1 implies {
                ||| rate_num < rate_den && #[trigger] trail[j + 1] == trail[j]
                ||| rate_num > 0 && S::perturbs(trail[j], trail[j + 1], j)
            } by {
                if j < locus {
                    assert(trail[j] == so_far[j]);
                    assert(trail[j + 1] == so_far[j + 1]);
                }
            }
        }
        locus = locus + 1;
    }
    assert(passes::<S>(trail, old(child).payload(), child.payload(), rate_num, rate_den));
}

} // verus!
