use vstd::prelude::*;
use crate::config::ConfigError;

verus! {

/// A temperature schedule for annealing.
pub trait Cooler: Sized {
    spec fn wf(&self) -> bool;

    /// The current temperature.
    spec fn temperature(&self) -> u64;

    /// The temperature that `reset` restores.
    spec fn initial(&self) -> u64;

    /// The schedule after one step.
    spec fn after(&self) -> Self;

    /// The schedule that `reset` restores.
    spec fn fresh(&self) -> Self;

    fn temp(&self) -> (t: u64)
        requires
            self.wf(),
        ensures
            t == self.temperature(),
    ;

    /// One step of the schedule: the temperature never rises.
    fn cool(&mut self)
        requires
            old(self).wf(),
        ensures
            *final(self) == old(self).after(),
            final(self).wf(),
            final(self).temperature() <= old(self).temperature(),
            final(self).initial() == old(self).initial(),
    ;

    fn reset(&mut self)
        requires
            old(self).wf(),
        ensures
            *final(self) == old(self).fresh(),
            final(self).wf(),
            final(self).temperature() == old(self).initial(),
            final(self).initial() == old(self).initial(),
    ;
}

/// The schedule after `steps` steps.
pub open spec fn after_steps<C: Cooler>(start: C, steps: nat) -> C
    decreases steps,
{
    if steps == 0 {
        start
    } else {
        after_steps(start, (steps - 1) as nat).after()
    }
}

/// The temperatures never rise along the run.
pub open spec fn never_rises(temps: Seq<u64>) -> bool {
    forall|i: int, j: int| 0 <= i <= j < temps.len() ==> temps[j] <= temps[i]
}

/// One step of the quadratic schedule: the temperature times the square of
/// `num / den`, rounded down.
pub open spec fn cooled(temp: int, num: int, den: int) -> int {
    (temp * (num * num)) / (den * den)
}

/// The temperature after `steps` steps of the quadratic schedule.
pub open spec fn schedule(start: int, num: int, den: int, steps: nat) -> int
    decreases steps,
{
    if steps == 0 {
        start
    } else {
        cooled(schedule(start, num, den, (steps - 1) as nat), num, den)
    }
}

/// The power `base^exp`.
pub open spec fn power(base: int, exp: nat) -> int
    decreases exp,
{
    if exp == 0 {
        1
    } else {
        base * power(base, (exp - 1) as nat)
    }
}

/// A step of the quadratic schedule keeps the temperature between zero and
/// its old value.
pub proof fn lemma_cooled_bounds(temp: int, num: int, den: int)
    requires
        0 <= temp,
        0 < num < den,
    ensures
        0 <= cooled(temp, num, den) <= temp,
        cooled(temp, num, den) * (den * den) <= temp * (num * num),
        temp * (num * num) < (cooled(temp, num, den) + 1) * (den * den),
{
    let n2 = num * num;
    let d2 = den * den;
    assert(0 < n2 < d2) by (nonlinear_arith)
        requires
            0 < num < den,
            n2 == num * num,
            d2 == den * den,
    ;
    assert(0 <= temp * n2 <= temp * d2) by (nonlinear_arith)
        requires
            0 <= temp,
            0 < n2 < d2,
    ;
    let q = (temp * n2) / d2;
    assert(0 <= q && q * d2 <= temp * n2 && q <= temp && temp * n2 < (q + 1) * d2) by (nonlinear_arith)
        requires
            q == (temp * n2) / d2,
            0 <= temp * n2 <= temp * d2,
            0 < d2,
            0 <= temp,
    ;
}

/// The quadratic schedule never rises and never goes below zero. It follows
/// the closed form `start * (num / den)^(2 * steps)` from below, and rounding
/// has cost it less than one unit per step.
pub proof fn lemma_schedule(start: int, num: int, den: int, steps: nat)
    requires
        0 <= start,
        0 < num < den,
    ensures
        0 <= schedule(start, num, den, steps + 1) <= schedule(start, num, den, steps) <= start,
        schedule(start, num, den, steps) * power(den * den, steps) <= start * power(num * num, steps),
        start * power(num * num, steps) <= (schedule(start, num, den, steps) + steps) * power(
            den * den,
            steps,
        ),
    decreases steps,
{
    let n2 = num * num;
    let d2 = den * den;
    let now = schedule(start, num, den, steps);
    if steps == 0 {
        lemma_cooled_bounds(start, num, den);
        assert(power(d2, 0) == 1 && power(n2, 0) == 1);
    } else {
        let k = (steps - 1) as nat;
        lemma_schedule(start, num, den, k);
        let before = schedule(start, num, den, k);
        lemma_cooled_bounds(before, num, den);
        lemma_cooled_bounds(now, num, den);
        assert(0 < d2) by (nonlinear_arith)
            requires
                0 < den,
                d2 == den * den,
        ;
        lemma_power_positive(d2, k);
        assert(0 < n2) by (nonlinear_arith)
            requires
                0 < num,
                n2 == num * num,
        ;
        let pd = power(d2, k);
        let pn = power(n2, k);
        assert(power(d2, steps) == d2 * pd);
        assert(power(n2, steps) == n2 * pn);
        assert(now * (d2 * pd) <= start * (n2 * pn)) by (nonlinear_arith)
            requires
                now * d2 <= before * n2,
                before * pd <= start * pn,
                0 < pd,
                0 < n2,
                0 <= now,
                0 <= before,
        ;
        assert(n2 < d2) by (nonlinear_arith)
            requires
                0 < num < den,
                n2 == num * num,
                d2 == den * den,
        ;
        assert(n2 * (before + k) <= (now + steps) * d2) by (nonlinear_arith)
            requires
                before * n2 < (now + 1) * d2,
                steps == k + 1,
                0 <= k,
                0 < n2 < d2,
        ;
        assert(start * (n2 * pn) <= (now + steps) * (d2 * pd)) by (nonlinear_arith)
            requires
                n2 * (before + k) <= (now + steps) * d2,
                start * pn <= (before + k) * pd,
                0 < pd,
                0 < n2,
        ;
    }
}

/// A power of a positive base is positive.
pub proof fn lemma_power_positive(base: int, exp: nat)
    requires
        0 < base,
    ensures
        0 < power(base, exp),
    decreases exp,
{
    if exp > 0 {
        lemma_power_positive(base, (exp - 1) as nat);
        assert(0 < base * power(base, (exp - 1) as nat)) by (nonlinear_arith)
            requires
                0 < base,
                0 < power(base, (exp - 1) as nat),
        ;
    }
}

/// The schedule `T' = T * alpha^2`, with `alpha = alpha_num / alpha_den`
/// strictly between zero and one. Temperatures are whole numbers and each
/// step rounds down, so the schedule freezes at zero after finitely many
/// steps.
pub struct QuadraticCooler {
    pub initial_temp: u64,
    pub current_temp: u64,
    pub alpha_num: u32,
    pub alpha_den: u32,
}

impl QuadraticCooler {
    /// Builds the schedule, or reports a cooling factor outside the open
    /// interval from zero to one.
    pub fn new(initial_temp: u64, alpha_num: u32, alpha_den: u32) -> (made: Result<Self, ConfigError>)
        ensures
            made.is_ok() <==> 0 < alpha_num < alpha_den,
            made matches Ok(c) ==> {
                &&& c.wf()
                &&& c.initial_temp == initial_temp
                &&& c.current_temp == initial_temp
                &&& c.alpha_num == alpha_num
                &&& c.alpha_den == alpha_den
            },
            made matches Err(e) ==> e == ConfigError::CoolingAlphaOutOfRange,
    {
        if alpha_num == 0 || alpha_num >= alpha_den {
            return Err(ConfigError::CoolingAlphaOutOfRange);
        }
        Ok(QuadraticCooler { initial_temp, current_temp: initial_temp, alpha_num, alpha_den })
    }
}

impl Cooler for QuadraticCooler {
    open spec fn wf(&self) -> bool {
        0 < self.alpha_num < self.alpha_den
    }

    open spec fn temperature(&self) -> u64 {
        self.current_temp
    }

    open spec fn initial(&self) -> u64 {
        self.initial_temp
    }

    open spec fn after(&self) -> Self {
        QuadraticCooler {
            current_temp: cooled(
                self.current_temp as int,
                self.alpha_num as int,
                self.alpha_den as int,
            ) as u64,
            ..*self
        }
    }

    open spec fn fresh(&self) -> Self {
        QuadraticCooler { current_temp: self.initial_temp, ..*self }
    }

    fn temp(&self) -> (t: u64) {
        self.current_temp
    }

    fn cool(&mut self)
        ensures
            final(self).current_temp == cooled(
                old(self).current_temp as int,
                old(self).alpha_num as int,
                old(self).alpha_den as int,
            ),
            final(self).alpha_num == old(self).alpha_num,
            final(self).alpha_den == old(self).alpha_den,
    {
        let num: u64 = self.alpha_num as u64;
        let den: u64 = self.alpha_den as u64;
        assert(num * num <= 0xffff_ffff * 0xffff_ffff && 0 < den * den <= 0xffff_ffff * 0xffff_ffff)
            by (nonlinear_arith)
            requires
                0 < num < den <= 0xffff_ffff,
        ;
        let num2: u64 = num * num;
        let den2: u64 = den * den;
        assert(self.current_temp * num2 <= 0xffff_ffff_ffff_ffff * 0xffff_ffff_ffff_ffff) by (nonlinear_arith)
            requires
                self.current_temp <= 0xffff_ffff_ffff_ffff,
                num2 <= 0xffff_ffff_ffff_ffff,
        ;
        proof {
            lemma_cooled_bounds(self.current_temp as int, num as int, den as int);
        }
        let scaled: u128 = (self.current_temp as u128 * num2 as u128) / (den2 as u128);
        self.current_temp = scaled as u64;
    }

    fn reset(&mut self)
        ensures
            final(self).alpha_num == old(self).alpha_num,
            final(self).alpha_den == old(self).alpha_den,
    {
        self.current_temp = self.initial_temp;
    }
}

/// After `steps` steps a quadratic cooler holds the temperature of the
/// quadratic schedule, and nothing else of it has changed.
pub proof fn lemma_quadratic_after_steps(start: QuadraticCooler, steps: nat)
    requires
        start.wf(),
    ensures
        after_steps(start, steps).current_temp == schedule(
            start.current_temp as int,
            start.alpha_num as int,
            start.alpha_den as int,
            steps,
        ),
        after_steps(start, steps).initial_temp == start.initial_temp,
        after_steps(start, steps).alpha_num == start.alpha_num,
        after_steps(start, steps).alpha_den == start.alpha_den,
    decreases steps,
{
    if steps > 0 {
        let before = (steps - 1) as nat;
        lemma_quadratic_after_steps(start, before);
        lemma_schedule(start.current_temp as int, start.alpha_num as int, start.alpha_den as int, before);
        lemma_cooled_bounds(
            after_steps(start, before).current_temp as int,
            start.alpha_num as int,
            start.alpha_den as int,
        );
    }
}

} // verus!
