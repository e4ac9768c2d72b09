use vstd::prelude::*;
use crate::rng::{gen_below, sample_indices};

verus! {

/// The largest magnitude of a merit: a sum of two 64-bit numbers, or its
/// negation.
pub open spec fn merit_span() -> int {
    0x1_0000_0000_0000_0000
}

/// The longest population that a wheel is built for.
pub open spec fn wheel_limit() -> int {
    0x1000_0000_0000_0000
}

/// Every merit is the merit of some evaluation.
pub open spec fn merits_in_range(merits: Seq<i128>) -> bool {
    forall|i: int| 0 <= i < merits.len() ==> -merit_span() <= #[trigger] merits[i] <= merit_span()
}

/// The least of the first `n` merits; zero for none.
pub open spec fn least(merits: Seq<i128>, n: int) -> int
    decreases n,
{
    if n <= 0 {
        0
    } else if n == 1 {
        merits[0] as int
    } else {
        let rest = least(merits, n - 1);
        if merits[n - 1] < rest {
            merits[n - 1] as int
        } else {
            rest
        }
    }
}

/// The share of the wheel that a merit gets. Where the least merit is
/// negative all merits are shifted so that the least gets one unit; where it
/// is not, a merit is its own weight.
pub open spec fn wheel_weight(merit: int, least: int) -> int {
    if least < 0 {
        merit - least + 1
    } else {
        merit
    }
}

/// The sum of the first `n` weights.
pub open spec fn wheel_prefix(weights: Seq<u128>, n: int) -> int
    decreases n,
{
    if n <= 0 {
        0
    } else {
        wheel_prefix(weights, n - 1) + weights[n - 1]
    }
}

/// The slot that covers `spin`: the sum of the weights before it is at most
/// `spin`, and with its own weight the sum is beyond it.
pub open spec fn covers(weights: Seq<u128>, slot: int, spin: int) -> bool {
    &&& 0 <= slot < weights.len()
    &&& wheel_prefix(weights, slot) <= spin < wheel_prefix(weights, slot + 1)
}

/// The least of the first `n` merits is one of them, and none of them is
/// below it.
pub proof fn lemma_least(merits: Seq<i128>, n: int)
    requires
        0 < n <= merits.len(),
    ensures
        forall|i: int| 0 <= i < n ==> least(merits, n) <= #[trigger] merits[i],
        exists|i: int| 0 <= i < n && least(merits, n) == merits[i],
    decreases n,
{
    if n > 1 {
        lemma_least(merits, n - 1);
        let w = choose|i: int| 0 <= i < n - 1 && least(merits, n - 1) == merits[i];
        if merits[n - 1] < least(merits, n - 1) {
            assert(least(merits, n) == merits[n - 1]);
        } else {
            assert(least(merits, n) == merits[w]);
        }
    } else {
        assert(least(merits, n) == merits[0]);
    }
}

/// The sum of the first weights grows with their number.
pub proof fn lemma_wheel_prefix_monotone(weights: Seq<u128>, i: int, j: int)
    requires
        0 <= i <= j,
    ensures
        wheel_prefix(weights, i) <= wheel_prefix(weights, j),
    decreases j - i,
{
    if i < j {
        lemma_wheel_prefix_monotone(weights, i, j - 1);
    }
}

/// The sum of `n` weights of at most `cap` each is at most `n * cap`.
pub proof fn lemma_wheel_prefix_bound(weights: Seq<u128>, n: int, cap: int)
    requires
        0 <= n <= weights.len(),
        forall|i: int| 0 <= i < weights.len() ==> #[trigger] weights[i] <= cap,
    ensures
        0 <= wheel_prefix(weights, n) <= n * cap,
    decreases n,
{
    if n > 0 {
        lemma_wheel_prefix_bound(weights, n - 1, cap);
        assert(weights[n - 1] <= cap);
        assert((n - 1) * cap + cap == n * cap) by (nonlinear_arith);
    } else {
        assert(n * cap == 0) by (nonlinear_arith)
            requires
                n == 0,
        ;
    }
}

/// At most one slot covers a spin.
pub proof fn lemma_covering_slot_is_unique(weights: Seq<u128>, a: int, b: int, spin: int)
    requires
        covers(weights, a, spin),
        covers(weights, b, spin),
    ensures
        a == b,
{
    if a < b {
        lemma_wheel_prefix_monotone(weights, a + 1, b);
    } else if b < a {
        lemma_wheel_prefix_monotone(weights, b + 1, a);
    }
}

/// On a wheel of equal weights every slot covers the same number of spins:
/// slot `i` covers exactly the spins from `i * weight` up to, but not
/// including, `(i + 1) * weight`.
pub proof fn lemma_equal_weights_are_uniform(weights: Seq<u128>, weight: int, n: int)
    requires
        0 <= n <= weights.len(),
        forall|i: int| 0 <= i < weights.len() ==> #[trigger] weights[i] == weight,
    ensures
        wheel_prefix(weights, n) == n * weight,
    decreases n,
{
    if n > 0 {
        lemma_equal_weights_are_uniform(weights, weight, n - 1);
        assert(weights[n - 1] == weight);
        assert((n - 1) * weight + weight == n * weight) by (nonlinear_arith);
    } else {
        assert(n * weight == 0) by (nonlinear_arith)
            requires
                n == 0,
        ;
    }
}

/// The least of the merits.
fn least_merit(merits: &Vec<i128>) -> (low: i128)
    requires
        merits@.len() > 0,
    ensures
        low == least(merits@, merits@.len() as int),
{
    let mut low: i128 = merits[0];
    let mut i: usize = 1;
    while i < merits.len()
        invariant
            1 <= i <= merits@.len(),
            low == least(merits@, i as int),
        decreases merits@.len() - i,
    {
        if merits[i] < low {
            low = merits[i];
        }
        i = i + 1;
    }
    low
}

/// The weights of the roulette wheel, one per merit.
pub fn wheel_weights(merits: &Vec<i128>) -> (weights: Vec<u128>)
    requires
        merits@.len() > 0,
        merits_in_range(merits@),
    ensures
        weights@.len() == merits@.len(),
        forall|i: int|
            0 <= i < merits@.len() ==> #[trigger] weights@[i] == wheel_weight(
                merits@[i] as int,
                least(merits@, merits@.len() as int),
            ),
        forall|i: int| 0 <= i < weights@.len() ==> #[trigger] weights@[i] <= 2 * merit_span() + 1,
        least(merits@, merits@.len() as int) < 0 ==> forall|i: int|
            0 <= i < weights@.len() ==> #[trigger] weights@[i] >= 1,
{
    let low: i128 = least_merit(merits);
    proof {
        lemma_least(merits@, merits@.len() as int);
    }
    let mut weights: Vec<u128> = Vec::new();
    let mut i: usize = 0;
    while i < merits.len()
        invariant
            i <= merits@.len(),
            weights@.len() == i,
            low == least(merits@, merits@.len() as int),
            merits_in_range(merits@),
            forall|j: int| 0 <= j < merits@.len() ==> low <= #[trigger] merits@[j],
            -merit_span() <= low <= merit_span(),
            forall|j: int|
                0 <= j < i ==> #[trigger] weights@[j] == wheel_weight(merits@[j] as int, low as int),
            forall|j: int| 0 <= j < i ==> #[trigger] weights@[j] <= 2 * merit_span() + 1,
            low < 0 ==> forall|j: int| 0 <= j < i ==> #[trigger] weights@[j] >= 1,
        decreases merits@.len() - i,
    {
        let merit: i128 = merits[i];
        let weight: u128 = if low < 0 {
            (merit - low + 1) as u128
        } else {
            merit as u128
        };
        weights.push(weight);
        i = i + 1;
    }
    weights
}

/// The sum of all weights.
fn wheel_total(weights: &Vec<u128>) -> (sum: u128)
    requires
        weights@.len() <= wheel_limit(),
        forall|i: int| 0 <= i < weights@.len() ==> #[trigger] weights@[i] <= 2 * merit_span() + 1,
    ensures
        sum == wheel_prefix(weights@, weights@.len() as int),
{
    let mut sum: u128 = 0;
    let mut i: usize = 0;
    while i < weights.len()
        invariant
            i <= weights@.len(),
            weights@.len() <= wheel_limit(),
            forall|j: int| 0 <= j < weights@.len() ==> #[trigger] weights@[j] <= 2 * merit_span() + 1,
            sum == wheel_prefix(weights@, i as int),
        decreases weights@.len() - i,
    {
        proof {
            lemma_wheel_prefix_bound(weights@, i + 1, 2 * merit_span() + 1);
            assert((i + 1) * (2 * merit_span() + 1) <= wheel_limit() * (2 * merit_span() + 1))
                by (nonlinear_arith)
                requires
                    i + 1 <= wheel_limit(),
            ;
        }
        sum = sum + weights[i];
        i = i + 1;
    }
    sum
}

/// The slot of the wheel that covers `spin`.
pub fn wheel_slot(weights: &Vec<u128>, spin: u128) -> (slot: usize)
    requires
        spin < wheel_prefix(weights@, weights@.len() as int),
    ensures
        covers(weights@, slot as int, spin as int),
{
    let n: usize = weights.len();
    let mut before: u128 = 0;
    let mut i: usize = 0;
    loop
        invariant
            n == weights@.len(),
            i < n,
            before == wheel_prefix(weights@, i as int),
            before <= spin,
            spin < wheel_prefix(weights@, weights@.len() as int),
        decreases weights@.len() - i,
    {
        proof {
            lemma_wheel_prefix_monotone(weights@, i + 1, weights@.len() as int);
        }
        if spin - before < weights[i] {
            return i;
        }
        before = before + weights[i];
        i = i + 1;
        assert(i < n);
    }
}

/// The wheel can stop at `pick`: its share is not empty, unless every share
/// is.
pub open spec fn on_wheel(merits: Seq<i128>, pick: int) -> bool {
    let low = least(merits, merits.len() as int);
    &&& 0 <= pick < merits.len()
    &&& wheel_weight(merits[pick] as int, low) > 0 || forall|i: int|
        0 <= i < merits.len() ==> wheel_weight(#[trigger] merits[i] as int, low) == 0
}

/// Roulette-wheel selection: spins the wheel uniformly and picks the slot
/// that covers the spin, so that a member is picked with probability
/// proportional to its weight; picks uniformly where every weight is zero.
pub fn roulette(rng: &mut rand::rngs::StdRng, merits: &Vec<i128>) -> (pick: usize)
    requires
        0 < merits@.len() <= wheel_limit(),
        merits_in_range(merits@),
    ensures
        on_wheel(merits@, pick as int),
{
    let weights: Vec<u128> = wheel_weights(merits);
    let total: u128 = wheel_total(&weights);
    if total == 0 {
        proof {
            assert forall|i: int| 0 <= i < merits@.len() implies wheel_weight(
                #[trigger] merits@[i] as int,
                least(merits@, merits@.len() as int),
            ) == 0 by {
                lemma_wheel_prefix_monotone(weights@, i + 1, weights@.len() as int);
                lemma_wheel_prefix_monotone(weights@, 0, i);
                assert(weights@[i] == 0);
            }
        }
        gen_below(rng, merits.len() as u128) as usize
    } else {
        let spin: u128 = gen_below(rng, total);
        let slot: usize = wheel_slot(&weights, spin);
        assert(weights@[slot as int] > 0);
        slot
    }
}

/// A seat holder wins the tournament: no seat holds a larger merit, and among
/// the seats of equal merit it is the lowest index.
pub open spec fn wins(merits: Seq<i128>, seats: Seq<usize>, winner: int) -> bool {
    &&& seats.contains(winner as usize)
    &&& 0 <= winner < merits.len()
    &&& forall|s: int|
        0 <= s < seats.len() ==> merits[#[trigger] seats[s] as int] <= merits[winner]
    &&& forall|s: int|
        0 <= s < seats.len() && merits[#[trigger] seats[s] as int] == merits[winner] ==> winner
            <= seats[s]
}

/// The winner among the given seats.
pub fn tournament_winner(merits: &Vec<i128>, seats: &Vec<usize>) -> (winner: usize)
    requires
        seats@.len() > 0,
        forall|s: int| 0 <= s < seats@.len() ==> #[trigger] seats@[s] < merits@.len(),
    ensures
        wins(merits@, seats@, winner as int),
{
    let mut winner: usize = seats[0];
    let mut s: usize = 1;
    while s < seats.len()
        invariant
            1 <= s <= seats@.len(),
            forall|t: int| 0 <= t < seats@.len() ==> #[trigger] seats@[t] < merits@.len(),
            winner < merits@.len(),
            exists|t: int| 0 <= t < s && seats@[t] == winner,
            forall|t: int| 0 <= t < s ==> merits@[#[trigger] seats@[t] as int] <= merits@[winner as int],
            forall|t: int|
                0 <= t < s && merits@[#[trigger] seats@[t] as int] == merits@[winner as int] ==> winner
                    <= seats@[t],
        decreases seats@.len() - s,
    {
        let seat: usize = seats[s];
        if merits[seat] > merits[winner] || (merits[seat] == merits[winner] && seat < winner) {
            winner = seat;
        }
        s = s + 1;
    }
    winner
}

/// `winner` wins some tournament of `size` distinct members.
pub open spec fn can_win(merits: Seq<i128>, size: int, winner: int) -> bool {
    exists|seats: Seq<usize>|
        {
            &&& seats.len() == size
            &&& seats.no_duplicates()
            &&& forall|s: int| 0 <= s < seats.len() ==> #[trigger] seats[s] < merits.len()
            &&& #[trigger] wins(merits, seats, winner)
        }
}

/// Tournament selection: seats `size` distinct members, chosen uniformly, and
/// returns the winner among them.
pub fn tournament(rng: &mut rand::rngs::StdRng, merits: &Vec<i128>, size: usize) -> (winner: usize)
    requires
        0 < size <= merits@.len(),
    ensures
        can_win(merits@, size as int, winner as int),
{
    let seats: Vec<usize> = if size == merits.len() {
        every_member(size)
    } else {
        sample_indices(rng, merits.len(), size)
    };
    let winner: usize = tournament_winner(merits, &seats);
    assert(wins(merits@, seats@, winner as int));
    winner
}

/// The seats of a tournament of all `count` members: every index below
/// `count`, in order.
pub fn every_member(count: usize) -> (seats: Vec<usize>)
    ensures
        seats@.len() == count,
        forall|i: int| 0 <= i < count ==> seats@[i] == i,
        seats@.no_duplicates(),
{
    let mut seats: Vec<usize> = Vec::new();
    let mut i: usize = 0;
    while i < count
        invariant
            i <= count,
            seats@.len() == i,
            forall|j: int| 0 <= j < i ==> seats@[j] == j,
        decreases count - i,
    {
        seats.push(i);
        i = i + 1;
    }
    seats
}

/// How parents are picked.
#[derive(Clone, Copy, Debug, PartialEq, Eq, Structural)]
pub enum Selection {
    /// With probability proportional to merit.
    Roulette,
    /// The best of this many distinct members, chosen uniformly.
    Tournament(usize),
}

/// The selection operator can pick from a population of `size` members.
pub open spec fn selection_fits(selection: Selection, size: int) -> bool {
    match selection {
        Selection::Roulette => true,
        Selection::Tournament(seats) => 0 < seats <= size,
    }
}

/// What the selection operator can pick.
pub open spec fn selected(selection: Selection, merits: Seq<i128>, parent: int) -> bool {
    match selection {
        Selection::Roulette => on_wheel(merits, parent),
        Selection::Tournament(seats) => can_win(merits, seats as int, parent),
    }
}

/// Picks one parent.
pub fn select(rng: &mut rand::rngs::StdRng, selection: Selection, merits: &Vec<i128>) -> (parent: usize)
    requires
        0 < merits@.len() <= wheel_limit(),
        merits_in_range(merits@),
        selection_fits(selection, merits@.len() as int),
    ensures
        parent < merits@.len(),
        selected(selection, merits@, parent as int),
{
    match selection {
        Selection::Roulette => roulette(rng, merits),
        Selection::Tournament(seats) => tournament(rng, merits, seats),
    }
}

} // verus!
