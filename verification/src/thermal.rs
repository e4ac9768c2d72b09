use vstd::prelude::*;
use vstd::set_lib::{set_int_range, lemma_int_range};
use crate::dice::{Dice, continues, taken, lemma_taken_in_two_goes};

verus! {

/// Two to the power of 64: one more than the largest draw.
pub open spec fn draw_span() -> int {
    0x1_0000_0000_0000_0000
}

/// The first link of a chain holds when the draw, read as a fraction of the
/// draw span, lies below `part / whole`.
pub open spec fn first_link(draw: u64, part: u64, whole: u64) -> bool {
    draw * whole < part * draw_span()
}

/// A link holds when the draw lies below what came before it: below the
/// fraction `part / whole` for the first link, below the previous draw after
/// that.
pub open spec fn link_holds(last: Option<u64>, draw: u64, part: u64, whole: u64) -> bool {
    match last {
        None => first_link(draw, part, whole),
        Some(previous) => draw < previous,
    }
}

/// A trial that succeeds with probability `exp(-part / whole)`, decided by
/// comparisons of uniform draws alone.
///
/// Draws are fed one by one. They form a chain for as long as each lies below
/// its predecessor, the first below `part / whole`. The trial succeeds when
/// the chain that the first failing draw ends has an even number of links.
#[derive(Clone, Copy, Debug, PartialEq, Eq, Structural)]
pub struct Chain {
    /// The last draw of the chain, if it has a link yet.
    pub last: Option<u64>,
    /// Whether the number of links so far is even.
    pub even: bool,
}

impl Chain {
    /// The chain without a link.
    pub fn start() -> (c: Chain)
        ensures
            c == (Chain { last: None, even: true }),
    {
        Chain { last: None, even: true }
    }

    /// What is left to draw below: the draw span before the first link, the
    /// last draw after it.
    pub open spec fn room(&self) -> int {
        match self.last {
            None => draw_span(),
            Some(previous) => previous as int,
        }
    }

    /// Feeds one draw. While the chain goes on there is no verdict; the draw
    /// that breaks it gives the verdict of the trial.
    pub fn feed(&mut self, draw: u64, part: u64, whole: u64) -> (verdict: Option<bool>)
        ensures
            link_holds(old(self).last, draw, part, whole) ==> {
                &&& verdict.is_none()
                &&& *final(self) == (Chain { last: Some(draw), even: !old(self).even })
                &&& final(self).room() < old(self).room()
            },
            !link_holds(old(self).last, draw, part, whole) ==> {
                &&& verdict == Some(old(self).even)
                &&& *final(self) == *old(self)
            },
    {
        proof {
            let p = part as u128;
            assert((p << 64) == p * 0x1_0000_0000_0000_0000) by (bit_vector)
                requires
                    p <= 0xffff_ffff_ffff_ffff,
            ;
            assert(draw * whole <= 0xffff_ffff_ffff_ffff * 0xffff_ffff_ffff_ffff) by (nonlinear_arith)
                requires
                    0 <= draw <= 0xffff_ffff_ffff_ffff,
                    0 <= whole <= 0xffff_ffff_ffff_ffff,
            ;
        }
        let holds: bool = match self.last {
            None => (draw as u128) * (whole as u128) < ((part as u128) << 64),
            Some(previous) => draw < previous,
        };
        if holds {
            self.last = Some(draw);
            self.even = !self.even;
            None
        } else {
            Some(self.even)
        }
    }
}

/// A draw that breaks the first link at one temperature breaks it at every
/// higher one: the hotter the trial, the more draws succeed at once.
pub proof fn lemma_hotter_accepts_more(draw: u64, part: u64, cooler: u64, hotter: u64)
    requires
        cooler <= hotter,
        !first_link(draw, part, cooler),
    ensures
        !first_link(draw, part, hotter),
{
    assert(draw * cooler <= draw * hotter) by (nonlinear_arith)
        requires
            0 <= draw,
            cooler <= hotter,
    ;
}

/// The first draws on which a trial does not succeed at once.
pub open spec fn lingering(part: u64, whole: u64) -> Set<int> {
    Set::new(|draw: int| 0 <= draw < draw_span() && draw * whole < part * draw_span())
}

/// Of the `2^64` values that a first draw can take, those on which a trial
/// does not succeed at once are `part / whole` of them, rounded up. A
/// worsening of `part` at temperature `whole` is therefore kept on at least
/// the share `1 - part / whole - 2^-64` of the first draws, and that share
/// tends to one as the temperature grows.
pub proof fn lemma_lingering_count(part: u64, whole: u64)
    requires
        0 < whole,
        part <= whole,
    ensures
        lingering(part, whole).finite(),
        lingering(part, whole).len() <= draw_span(),
        part * draw_span() <= lingering(part, whole).len() * whole < part * draw_span() + whole,
{
    let span = draw_span();
    let product = part * span;
    let bound = (product + whole - 1) / (whole as int);
    assert(product <= bound * whole < product + whole && 0 <= bound <= span) by (nonlinear_arith)
        requires
            bound == (product + whole - 1) / (whole as int),
            product == part * span,
            0 <= part <= whole,
            0 < whole,
            0 < span,
    ;
    assert forall|draw: int| lingering(part, whole).contains(draw) <==> set_int_range(0, bound).contains(
        draw,
    ) by {
        if 0 <= draw < bound {
            assert(draw * whole < product) by (nonlinear_arith)
                requires
                    0 <= draw <= bound - 1,
                    bound * whole < product + whole,
                    0 < whole,
            ;
        }
        if draw >= bound {
            assert(draw * whole >= product) by (nonlinear_arith)
                requires
                    draw >= bound,
                    product <= bound * whole,
                    0 < whole,
            ;
        }
    }
    assert(lingering(part, whole) =~= set_int_range(0, bound));
    lemma_int_range(0, bound);
}

/// One trial with success probability `exp(-part / whole)`.
pub(crate) fn unit_trial(dice: &mut Dice, part: u64, whole: u64) -> (success: bool)
    ensures
        continues(old(dice).drawn(), final(dice).drawn()),
        unit_settled(taken(old(dice).drawn(), final(dice).drawn()), part, whole, success),
        part == 0 ==> success,
{
    let ghost start: Seq<u64> = dice.drawn();
    let ghost mut used: Seq<u64> = Seq::empty();
    let mut chain = Chain::start();
    loop
        invariant
            start == old(dice).drawn(),
            dice.drawn() == start + used,
            chain_of(used, chain, part, whole),
        decreases chain.room(),
    {
        let draw: u64 = dice.draw();
        proof {
            lemma_chain_fed(start, used, chain, draw, part, whole);
            used = used.push(draw);
        }
        match chain.feed(draw, part, whole) {
            Some(verdict) => {
                return verdict;
            },
            None => {},
        }
    }
}

/// One trial with success probability `exp(-gap / temp)`: as many trials of
/// probability `exp(-1)` as `temp` goes into `gap`, and one for the rest, all
/// of which must succeed.
pub(crate) fn thermal_trial(dice: &mut Dice, gap: u128, temp: u64) -> (success: bool)
    requires
        temp > 0,
    ensures
        continues(old(dice).drawn(), final(dice).drawn()),
        thermal_settled(taken(old(dice).drawn(), final(dice).drawn()), gap, temp, success),
        gap == 0 ==> success,
{
    let wholes: u128 = gap / (temp as u128);
    let rest: u64 = (gap % (temp as u128)) as u64;
    assert(gap == 0 ==> wholes == 0 && rest == 0) by (nonlinear_arith)
        requires
            temp > 0,
            wholes == gap / (temp as u128),
            rest == gap % (temp as u128),
    ;
    let ghost start: Seq<u64> = dice.drawn();
    let mut done: u128 = 0;
    proof {
        assert(taken(start, start) =~= Seq::<u64>::empty());
        assert(start.take(start.len() as int) =~= start);
    }
    while done < wholes
        invariant
            start == old(dice).drawn(),
            done <= wholes,
            wholes == gap as int / temp as int,
            rest == (gap as int % temp as int) as u64,
            gap == 0 ==> wholes == 0 && rest == 0,
            continues(start, dice.drawn()),
            all_passed(taken(start, dice.drawn()), done as nat, temp),
        decreases wholes - done,
    {
        let ghost mid: Seq<u64> = dice.drawn();
        let passed: bool = unit_trial(dice, temp, temp);
        proof {
            lemma_taken_in_two_goes(start, mid, dice.drawn());
        }
        let ghost cut: int = taken(start, mid).len() as int;
        if !passed {
            assert(all_passed(taken(start, dice.drawn()).take(cut), done as nat, temp));
            return false;
        }
        assert(unit_settled(taken(start, dice.drawn()).skip(cut), temp, temp, true));
        done = done + 1;
    }
    let ghost mid: Seq<u64> = dice.drawn();
    let success: bool = unit_trial(dice, rest, temp);
    proof {
        lemma_taken_in_two_goes(start, mid, dice.drawn());
        let cut: int = taken(start, mid).len() as int;
        assert(all_passed(taken(start, dice.drawn()).take(cut), wholes as nat, temp));
    }
    success
}

/// Draw number `i` of `draws` adds a link to the chain that the draws before
/// it have made.
pub open spec fn link_at(draws: Seq<u64>, i: int, part: u64, whole: u64) -> bool {
    if i == 0 {
        first_link(draws[0], part, whole)
    } else {
        draws[i] < draws[i - 1]
    }
}

/// `draws` are the draws of one trial of `part / whole`, and the trial ends
/// as `success` says: every draw but the last adds a link to the chain, the
/// last breaks it, and the trial succeeds when the chain has an even number
/// of links.
pub open spec fn unit_settled(draws: Seq<u64>, part: u64, whole: u64, success: bool) -> bool {
    &&& draws.len() >= 1
    &&& forall|i: int| 0 <= i < draws.len() - 1 ==> #[trigger] link_at(draws, i, part, whole)
    &&& !link_at(draws, draws.len() - 1, part, whole)
    &&& success == ((draws.len() - 1) % 2 == 0)
}

/// `draws` are the draws of `count` trials of `whole / whole`, one after the
/// other, all of which succeed.
pub open spec fn all_passed(draws: Seq<u64>, count: nat, whole: u64) -> bool
    decreases count,
{
    if count == 0 {
        draws.len() == 0
    } else {
        exists|cut: int|
            {
                &&& 0 <= cut < draws.len()
                &&& all_passed(draws.take(cut), (count - 1) as nat, whole)
                &&& #[trigger] unit_settled(draws.skip(cut), whole, whole, true)
            }
    }
}

/// `draws` are the draws of one thermal trial of `gap` at `temp`, and the
/// trial ends as `success` says. The trial is made of as many trials of
/// `temp / temp` as `temp` goes into `gap`, and one trial of the rest over
/// `temp`. It fails with the first of them that fails, and takes no draw
/// after that; it succeeds when all of them succeed.
pub open spec fn thermal_settled(draws: Seq<u64>, gap: u128, temp: u64, success: bool) -> bool {
    let wholes = gap as int / temp as int;
    let rest = (gap as int % temp as int) as u64;
    exists|cut: int, passed: nat|
        {
            &&& 0 <= cut < draws.len()
            &&& passed <= wholes
            &&& #[trigger] all_passed(draws.take(cut), passed, temp)
            &&& if passed < wholes {
                !success && unit_settled(draws.skip(cut), temp, temp, false)
            } else {
                unit_settled(draws.skip(cut), rest, temp, success)
            }
        }
}

/// A trial of `0 / whole` takes one draw and succeeds.
pub proof fn lemma_sure_trial(draws: Seq<u64>, whole: u64, success: bool)
    requires
        unit_settled(draws, 0, whole, success),
    ensures
        draws.len() == 1,
        success,
{
    if draws.len() > 1 {
        assert(link_at(draws, 0, 0, whole));
        assert(!first_link(draws[0], 0, whole)) by (nonlinear_arith)
            requires
                0 <= draws[0],
                0 <= whole,
        ;
    }
}

/// `chain` is the chain that the draws `used` have made: each of them added
/// a link.
pub open spec fn chain_of(used: Seq<u64>, chain: Chain, part: u64, whole: u64) -> bool {
    &&& used.len() == 0 ==> chain.last.is_none()
    &&& used.len() > 0 ==> chain.last == Some(used[used.len() - 1])
    &&& chain.even == (used.len() % 2 == 0)
    &&& forall|i: int| 0 <= i < used.len() ==> #[trigger] link_at(used, i, part, whole)
}

/// One more draw either adds a link to the chain, or ends the trial with
/// the verdict that the chain gives.
pub proof fn lemma_chain_fed(start: Seq<u64>, used: Seq<u64>, chain: Chain, draw: u64, part: u64, whole: u64)
    requires
        chain_of(used, chain, part, whole),
    ensures
        (start + used).push(draw) == start + used.push(draw),
        continues(start, start + used.push(draw)),
        taken(start, start + used.push(draw)) == used.push(draw),
        link_holds(chain.last, draw, part, whole) ==> chain_of(
            used.push(draw),
            Chain { last: Some(draw), even: !chain.even },
            part,
            whole,
        ),
        !link_holds(chain.last, draw, part, whole) ==> unit_settled(
            used.push(draw),
            part,
            whole,
            chain.even,
        ) && (part == 0 ==> chain.even),
{
    let longer = used.push(draw);
    assert((start + used).push(draw) =~= start + longer);
    assert(taken(start, start + longer) =~= longer);
    assert((start + longer).take(start.len() as int) =~= start);
    assert forall|i: int| 0 <= i < used.len() implies #[trigger] link_at(longer, i, part, whole) by {
        assert(link_at(used, i, part, whole));
        assert(longer[i] == used[i]);
        if i > 0 {
            assert(longer[i - 1] == used[i - 1]);
        }
    }
    assert(link_at(longer, used.len() as int, part, whole) == link_holds(
        chain.last,
        draw,
        part,
        whole,
    ));
    if !link_holds(chain.last, draw, part, whole) && part == 0 {
        lemma_sure_trial(longer, whole, chain.even);
    }
}

/// A trial of `whole / whole` goes the same way whatever `whole` is: its
/// first draw always adds a link.
pub proof fn lemma_full_trial_any_whole(draws: Seq<u64>, whole: u64, other: u64, success: bool)
    requires
        whole > 0,
        other > 0,
        unit_settled(draws, whole, whole, success),
    ensures
        unit_settled(draws, other, other, success),
{
    assert(first_link(draws[0], whole, whole)) by (nonlinear_arith)
        requires
            whole > 0,
            0 <= draws[0] < draw_span(),
    ;
    assert(first_link(draws[0], other, other)) by (nonlinear_arith)
        requires
            other > 0,
            0 <= draws[0] < draw_span(),
    ;
    assert(link_at(draws, 0, whole, whole));
    assert forall|i: int| 0 <= i < draws.len() - 1 implies #[trigger] link_at(
        draws,
        i,
        other,
        other,
    ) by {
        assert(link_at(draws, i, whole, whole));
    }
}

/// Trials of `whole / whole` that all succeed do so whatever `whole` is.
pub proof fn lemma_all_passed_any_whole(draws: Seq<u64>, count: nat, whole: u64, other: u64)
    requires
        whole > 0,
        other > 0,
        all_passed(draws, count, whole),
    ensures
        all_passed(draws, count, other),
    decreases count,
{
    if count > 0 {
        let cut = choose|cut: int|
            {
                &&& 0 <= cut < draws.len()
                &&& all_passed(draws.take(cut), (count - 1) as nat, whole)
                &&& #[trigger] unit_settled(draws.skip(cut), whole, whole, true)
            };
        lemma_all_passed_any_whole(draws.take(cut), (count - 1) as nat, whole, other);
        lemma_full_trial_any_whole(draws.skip(cut), whole, other, true);
    }
}

/// Of `count` trials that all succeed, the first `fewer` take a prefix of
/// the draws, and where they are not all of them, the next trial takes the
/// draws from there up to `next.1`.
pub proof fn lemma_first_trials(draws: Seq<u64>, count: nat, fewer: nat, whole: u64) -> (next: (int, int))
    requires
        fewer <= count,
        all_passed(draws, count, whole),
    ensures
        0 <= next.0 <= next.1 <= draws.len(),
        all_passed(draws.take(next.0), fewer, whole),
        fewer == count ==> next.0 == draws.len(),
        fewer < count ==> next.0 < next.1 && unit_settled(
            draws.subrange(next.0, next.1),
            whole,
            whole,
            true,
        ),
    decreases count,
{
    if fewer == count {
        assert(draws.take(draws.len() as int) =~= draws);
        (draws.len() as int, draws.len() as int)
    } else {
        let cut = choose|cut: int|
            {
                &&& 0 <= cut < draws.len()
                &&& all_passed(draws.take(cut), (count - 1) as nat, whole)
                &&& #[trigger] unit_settled(draws.skip(cut), whole, whole, true)
            };
        if fewer == count - 1 {
            assert(draws.subrange(cut, draws.len() as int) =~= draws.skip(cut));
            (cut, draws.len() as int)
        } else {
            let next = lemma_first_trials(draws.take(cut), (count - 1) as nat, fewer, whole);
            assert(draws.take(cut).take(next.0) =~= draws.take(next.0));
            assert(draws.take(cut).subrange(next.0, next.1) =~= draws.subrange(next.0, next.1));
            next
        }
    }
}

/// On the draws of a trial that succeeds, a trial of a fraction that is no
/// larger succeeds too, and takes the same draws or only the first of them.
pub proof fn lemma_easier_unit(draws: Seq<u64>, part: u64, whole: u64, easier: u64, other: u64) -> (n: int)
    requires
        whole > 0,
        other > 0,
        easier * whole <= part * other,
        unit_settled(draws, part, whole, true),
    ensures
        1 <= n <= draws.len(),
        unit_settled(draws.take(n), easier, other, true),
{
    if first_link(draws[0], easier, other) {
        assert(first_link(draws[0], part, whole)) by (nonlinear_arith)
            requires
                draws[0] * other < easier * draw_span(),
                easier * whole <= part * other,
                whole > 0,
                other > 0,
                0 <= draws[0],
                draw_span() > 0,
        ;
        if draws.len() == 1 {
            assert(!link_at(draws, 0, part, whole));
        }
        assert forall|i: int| 0 <= i < draws.len() - 1 implies #[trigger] link_at(
            draws,
            i,
            easier,
            other,
        ) by {
            assert(link_at(draws, i, part, whole));
        }
        assert(draws.take(draws.len() as int) =~= draws);
        draws.len() as int
    } else {
        let one = draws.take(1);
        assert(one[0] == draws[0]);
        assert(!link_at(one, 0, easier, other));
        1
    }
}

/// Acceptance is monotone on one stream of draws: where the trial of a
/// worsening succeeds at a temperature, the trial of a worsening that is no
/// larger, at a temperature that is no lower, succeeds on the same stream,
/// of which it takes the first `n` draws.
pub proof fn lemma_easier_trial_succeeds(draws: Seq<u64>, gap: u128, temp: u64, easier: u128, hotter: u64) -> (n: int)
    requires
        0 < temp <= hotter,
        easier <= gap,
        thermal_settled(draws, gap, temp, true),
    ensures
        1 <= n <= draws.len(),
        thermal_settled(draws.take(n), easier, hotter, true),
{
    let wholes = gap as int / temp as int;
    let rest = gap as int % temp as int;
    let fewer = easier as int / hotter as int;
    let less = easier as int % hotter as int;
    assert(gap == wholes * temp + rest && 0 <= rest < temp && 0 <= wholes) by (nonlinear_arith)
        requires
            wholes == gap as int / temp as int,
            rest == gap as int % temp as int,
            temp > 0,
            gap >= 0,
    ;
    assert(easier == fewer * hotter + less && 0 <= less < hotter && 0 <= fewer) by (nonlinear_arith)
        requires
            fewer == easier as int / hotter as int,
            less == easier as int % hotter as int,
            hotter > 0,
            easier >= 0,
    ;
    assert(fewer <= wholes) by (nonlinear_arith)
        requires
            gap == wholes * temp + rest,
            easier == fewer * hotter + less,
            0 <= rest < temp,
            0 <= less,
            0 < temp <= hotter,
            easier <= gap,
            0 <= fewer,
            0 <= wholes,
    ;
    let (cut, passed) = choose|cut: int, passed: nat|
        {
            &&& 0 <= cut < draws.len()
            &&& passed <= wholes
            &&& #[trigger] all_passed(draws.take(cut), passed, temp)
            &&& if passed < wholes {
                !true && unit_settled(draws.skip(cut), temp, temp, false)
            } else {
                unit_settled(draws.skip(cut), rest as u64, temp, true)
            }
        };
    let done = draws.take(cut);
    if fewer == wholes {
        assert(less * temp <= rest * hotter) by (nonlinear_arith)
            requires
                gap == wholes * temp + rest,
                easier == wholes * hotter + less,
                0 <= rest,
                0 <= less,
                0 < temp <= hotter,
                easier <= gap,
                0 <= wholes,
        ;
        lemma_all_passed_any_whole(done, passed, temp, hotter);
        let m = lemma_easier_unit(draws.skip(cut), rest as u64, temp, less as u64, hotter);
        let n = cut + m;
        assert(draws.take(n).take(cut) =~= done);
        assert(draws.take(n).skip(cut) =~= draws.skip(cut).take(m));
        assert(all_passed(draws.take(n).take(cut), fewer as nat, hotter));
        n
    } else {
        let next = lemma_first_trials(done, passed, fewer as nat, temp);
        let trial = done.subrange(next.0, next.1);
        lemma_all_passed_any_whole(done.take(next.0), fewer as nat, temp, hotter);
        assert(less * temp <= temp * hotter) by (nonlinear_arith)
            requires
                0 <= less < hotter,
                0 < temp,
        ;
        let m = lemma_easier_unit(trial, temp, temp, less as u64, hotter);
        let n = next.0 + m;
        assert(draws.take(n).take(next.0) =~= done.take(next.0));
        assert(draws.take(n).skip(next.0) =~= trial.take(m));
        assert(all_passed(draws.take(n).take(next.0), fewer as nat, hotter));
        n
    }
}

} // verus!
