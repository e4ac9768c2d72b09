use vstd::prelude::*;
use crate::config::ConfigError;

verus! {

/// A termination condition. An engine asks it once per iteration, after the
/// acceptance decision and the update of the best candidate, and hands it the
/// merit of the best candidate.
pub trait StopCriteria: Sized {
    spec fn wf(&self) -> bool;

    /// A bound on how many more times the condition can answer "go on".
    spec fn fuel(&self) -> nat;

    /// Whether the next tick, on `best`, answers "stop".
    spec fn halts(&self, best: i128) -> bool;

    /// The state after a tick on `best`.
    spec fn after(&self, best: i128) -> Self;

    /// The state that `reset` restores.
    spec fn fresh(&self) -> Self;

    fn reset(&mut self)
        requires
            old(self).wf(),
        ensures
            *final(self) == old(self).fresh(),
            final(self).wf(),
    ;

    fn should_stop(&mut self, best: i128) -> (stop: bool)
        requires
            old(self).wf(),
        ensures
            stop == old(self).halts(best),
            *final(self) == old(self).after(best),
            final(self).wf(),
            !stop ==> final(self).fuel() < old(self).fuel(),
    ;
}

/// The state of a condition after the ticks `bests`, in order.
pub open spec fn state_after<C: StopCriteria>(start: C, bests: Seq<i128>) -> C
    decreases bests.len(),
{
    if bests.len() == 0 {
        start
    } else {
        state_after(start, bests.drop_last()).after(bests.last())
    }
}

/// Whether tick number `i` of the run `bests` answers "stop".
pub open spec fn halts_at<C: StopCriteria>(start: C, bests: Seq<i128>, i: int) -> bool {
    state_after(start, bests.take(i)).halts(bests[i])
}

/// The run `bests` is one that an engine can have made: every tick but the
/// last answered "go on", and the last answered "stop".
pub open spec fn stops_at_end<C: StopCriteria>(start: C, bests: Seq<i128>) -> bool {
    &&& bests.len() > 0
    &&& forall|i: int| 0 <= i < bests.len() - 1 ==> !#[trigger] halts_at(start, bests, i)
    &&& halts_at(start, bests, bests.len() - 1)
}

/// Showing a condition one more merit leaves the verdicts of the earlier
/// ticks as they were, and asks the state after them for the new verdict.
pub proof fn lemma_run_extended<C: StopCriteria>(start: C, bests: Seq<i128>, best: i128)
    ensures
        state_after(start, bests.push(best)) == state_after(start, bests).after(best),
        halts_at(start, bests.push(best), bests.len() as int) == state_after(start, bests).halts(best),
        forall|i: int|
            0 <= i < bests.len() ==> #[trigger] halts_at(start, bests.push(best), i) == halts_at(
                start,
                bests,
                i,
            ),
{
    let longer = bests.push(best);
    assert(longer.drop_last() == bests);
    assert(longer.take(bests.len() as int) == bests);
    assert forall|i: int| 0 <= i < bests.len() implies #[trigger] halts_at(start, longer, i)
        == halts_at(start, bests, i) by {
        assert(longer.take(i) == bests.take(i));
    }
}

/// Stops at the tick that uses up a fixed budget.
#[derive(Clone, Copy, Debug, PartialEq, Eq, Structural)]
pub struct MaxSteps {
    pub max_steps: u64,
    pub steps: u64,
}

impl MaxSteps {
    /// A budget of `max_steps` ticks, or an error for a budget of zero.
    pub fn new(max_steps: u64) -> (made: Result<Self, ConfigError>)
        ensures
            made.is_ok() <==> max_steps > 0,
            made matches Ok(m) ==> m == (MaxSteps { max_steps, steps: 0 }) && m.wf(),
            made matches Err(e) ==> e == ConfigError::NonPositiveMaxSteps,
    {
        if max_steps == 0 {
            return Err(ConfigError::NonPositiveMaxSteps);
        }
        Ok(MaxSteps { max_steps, steps: 0 })
    }
}

impl StopCriteria for MaxSteps {
    open spec fn wf(&self) -> bool {
        0 < self.max_steps && self.steps <= self.max_steps
    }

    open spec fn fuel(&self) -> nat {
        (self.max_steps - self.steps) as nat
    }

    open spec fn halts(&self, best: i128) -> bool {
        self.steps + 1 >= self.max_steps
    }

    open spec fn after(&self, best: i128) -> Self {
        MaxSteps {
            max_steps: self.max_steps,
            steps: if self.steps < self.max_steps {
                (self.steps + 1) as u64
            } else {
                self.steps
            },
        }
    }

    open spec fn fresh(&self) -> Self {
        MaxSteps { max_steps: self.max_steps, steps: 0 }
    }

    fn reset(&mut self) {
        self.steps = 0;
    }

    fn should_stop(&mut self, best: i128) -> (stop: bool) {
        if self.steps < self.max_steps {
            self.steps = self.steps + 1;
        }
        self.steps >= self.max_steps
    }
}

/// With a budget of `N` ticks, a run from the reset state that stops at its
/// end has exactly `N` ticks: an engine under `MaxSteps` performs exactly `N`
/// iterations.
pub proof fn lemma_max_steps_runs_exactly(budget: MaxSteps, bests: Seq<i128>)
    requires
        budget.wf(),
        stops_at_end(budget.fresh(), bests),
    ensures
        bests.len() == budget.max_steps,
{
    let start = budget.fresh();
    lemma_max_steps_count(start, bests, bests.len() - 1);
    let last = bests.len() - 1;
    assert(halts_at(start, bests, last));
    if bests.len() > start.max_steps {
        let early = start.max_steps - 1;
        lemma_max_steps_count(start, bests, early);
        assert(halts_at(start, bests, early));
    }
}

/// While the budget lasts, the counter of a fresh `MaxSteps` equals the
/// number of ticks.
proof fn lemma_max_steps_count(start: MaxSteps, bests: Seq<i128>, n: int)
    requires
        start.wf(),
        start.steps == 0,
        0 <= n <= bests.len(),
    ensures
        state_after(start, bests.take(n)).max_steps == start.max_steps,
        n <= start.max_steps ==> state_after(start, bests.take(n)).steps == n,
        n > start.max_steps ==> state_after(start, bests.take(n)).steps == start.max_steps,
    decreases n,
{
    if n > 0 {
        lemma_max_steps_count(start, bests, n - 1);
        assert(bests.take(n).drop_last() == bests.take(n - 1));
    }
}

/// Stops when the best merit has not risen by more than `min_delta` for
/// `window` ticks in a row. The first tick after a reset has nothing to
/// compare with and counts as one tick without a rise.
#[derive(Clone, Copy, Debug, PartialEq, Eq, Structural)]
pub struct NotGettingBetter {
    pub window: u64,
    pub min_delta: u64,
    /// The merit at the last rise, once a tick has been seen.
    pub reference: Option<i128>,
    /// Ticks since the last rise, never counted beyond `window`.
    pub stale: u64,
}

/// Whether `best` lies above `reference` by more than `min_delta`.
pub open spec fn rises(reference: Option<i128>, min_delta: u64, best: i128) -> bool {
    match reference {
        Some(r) => best - r > min_delta,
        None => false,
    }
}

impl NotGettingBetter {
    /// A window of `window` ticks in which the merit must rise by more than
    /// `min_delta`.
    pub fn new(window: u64, min_delta: u64) -> (made: Self)
        ensures
            made == (NotGettingBetter { window, min_delta, reference: None, stale: 0 }),
            made.wf(),
    {
        NotGettingBetter { window, min_delta, reference: None, stale: 0 }
    }

    /// How far the reference lies below the largest merit there is.
    pub open spec fn headroom(&self) -> nat {
        match self.reference {
            Some(r) => (i128::MAX - r) as nat,
            None => (i128::MAX - i128::MIN + 1) as nat,
        }
    }
}

impl StopCriteria for NotGettingBetter {
    open spec fn wf(&self) -> bool {
        self.stale <= self.window
    }

    open spec fn fuel(&self) -> nat {
        self.headroom() * (self.window + 1) as nat + (self.window - self.stale) as nat
    }

    open spec fn halts(&self, best: i128) -> bool {
        self.after(best).stale >= self.window
    }

    open spec fn after(&self, best: i128) -> Self {
        if rises(self.reference, self.min_delta, best) {
            NotGettingBetter { reference: Some(best), stale: 0, ..*self }
        } else {
            NotGettingBetter {
                reference: if self.reference.is_some() {
                    self.reference
                } else {
                    Some(best)
                },
                stale: if self.stale < self.window {
                    (self.stale + 1) as u64
                } else {
                    self.stale
                },
                ..*self
            }
        }
    }

    open spec fn fresh(&self) -> Self {
        NotGettingBetter { reference: None, stale: 0, ..*self }
    }

    fn reset(&mut self) {
        self.reference = None;
        self.stale = 0;
    }

    fn should_stop(&mut self, best: i128) -> (stop: bool) {
        let risen: bool = match self.reference {
            Some(r) => exceeds(best, r, self.min_delta),
            None => false,
        };
        let ghost before = *self;
        if risen {
            self.reference = Some(best);
            self.stale = 0;
        } else {
            if self.reference.is_none() {
                self.reference = Some(best);
            }
            if self.stale < self.window {
                self.stale = self.stale + 1;
            }
        }
        proof {
            if self.stale < self.window {
                let w = (self.window + 1) as nat;
                let h0 = before.headroom();
                let h1 = self.headroom();
                if risen || before.reference.is_none() {
                    assert(h1 + 1 <= h0);
                    assert(h1 * w + w <= h0 * w) by (nonlinear_arith)
                        requires
                            h1 + 1 <= h0,
                    ;
                }
            }
        }
        self.stale >= self.window
    }
}

/// Whether `best - reference > min_delta`, computed without overflow.
fn exceeds(best: i128, reference: i128, min_delta: u64) -> (yes: bool)
    ensures
        yes == (best - reference > min_delta),
{
    if best <= reference {
        false
    } else if reference >= 0 || best < 0 {
        (best - reference) as u128 > min_delta as u128
    } else {
        let below: u128 = (-(reference + 1)) as u128;
        let gap: u128 = best as u128 + below + 1;
        gap > min_delta as u128
    }
}

/// With a window of `W` ticks, a run from the reset state that stops at its
/// end has at least `W` ticks: an engine under `NotGettingBetter` performs at
/// least `W` iterations.
pub proof fn lemma_window_runs_at_least(window: NotGettingBetter, bests: Seq<i128>)
    requires
        stops_at_end(window.fresh(), bests),
    ensures
        bests.len() >= window.window,
{
    let start = window.fresh();
    let last = bests.len() - 1;
    lemma_stale_bound(start, bests, last);
    assert(halts_at(start, bests, last));
}

/// The count of ticks without a rise grows by at most one per tick.
proof fn lemma_stale_bound(start: NotGettingBetter, bests: Seq<i128>, n: int)
    requires
        start.stale == 0,
        0 <= n <= bests.len(),
    ensures
        state_after(start, bests.take(n)).window == start.window,
        state_after(start, bests.take(n)).stale <= n,
    decreases n,
{
    if n > 0 {
        lemma_stale_bound(start, bests, n - 1);
        assert(bests.take(n).drop_last() == bests.take(n - 1));
    }
}

} // verus!
