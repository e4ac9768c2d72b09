use vstd::prelude::*;
use crate::rng::{from_entropy, seed_from_u64, next_u64};

verus! {

/// A generator together with the record of the 64-bit draws that were taken
/// from it. The record grows by one entry with every draw and in no other
/// way.
pub struct Dice {
    rng: rand::rngs::StdRng,
    drawn: Ghost<Seq<u64>>,
}

impl Dice {
    /// The draws taken so far, oldest first.
    pub closed spec fn drawn(&self) -> Seq<u64> {
        self.drawn@
    }

    /// Dice whose generator is seeded by the operating system; nothing has
    /// been drawn yet.
    pub fn from_entropy() -> (dice: Dice)
        ensures
            dice.drawn() == Seq::<u64>::empty(),
    {
        Dice { rng: from_entropy(), drawn: Ghost(Seq::empty()) }
    }

    /// Dice whose draws are fixed by `seed`; nothing has been drawn yet.
    pub fn seeded(seed: u64) -> (dice: Dice)
        ensures
            dice.drawn() == Seq::<u64>::empty(),
    {
        Dice { rng: seed_from_u64(seed), drawn: Ghost(Seq::empty()) }
    }

    /// Takes the next 64 bits of the stream and records them.
    pub fn draw(&mut self) -> (value: u64)
        ensures
            final(self).drawn() == old(self).drawn().push(value),
    {
        let value: u64 = next_u64(&mut self.rng);
        self.drawn = Ghost(self.drawn@.push(value));
        value
    }
}

/// The record `after` continues the record `before`: it starts with the same
/// draws.
pub open spec fn continues(before: Seq<u64>, after: Seq<u64>) -> bool {
    before.len() <= after.len() && after.take(before.len() as int) == before
}

/// The draws that were taken between the record `before` and the record
/// `after`.
pub open spec fn taken(before: Seq<u64>, after: Seq<u64>) -> Seq<u64> {
    after.skip(before.len() as int)
}

/// Draws taken in two goes are the draws of the first go followed by those
/// of the second.
pub proof fn lemma_taken_in_two_goes(start: Seq<u64>, mid: Seq<u64>, end: Seq<u64>)
    requires
        continues(start, mid),
        continues(mid, end),
    ensures
        continues(start, end),
        taken(start, end).len() == taken(start, mid).len() + taken(mid, end).len(),
        taken(start, end).take(taken(start, mid).len() as int) == taken(start, mid),
        taken(start, end).skip(taken(start, mid).len() as int) == taken(mid, end),
{
    assert(end.take(start.len() as int) =~= start) by {
        assert forall|i: int| 0 <= i < start.len() implies end[i] == start[i] by {
            assert(end.take(mid.len() as int)[i] == mid[i]);
            assert(mid.take(start.len() as int)[i] == start[i]);
        }
    }
    let first = taken(start, mid);
    assert(taken(start, end).take(first.len() as int) =~= first) by {
        assert forall|i: int| 0 <= i < first.len() implies taken(start, end)[i] == first[i] by {
            assert(end.take(mid.len() as int)[start.len() + i] == mid[start.len() + i]);
        }
    }
    assert(taken(start, end).skip(first.len() as int) =~= taken(mid, end));
}

/// The draws of several goes, one after the other.
pub open spec fn joined(goes: Seq<Seq<u64>>) -> Seq<u64>
    decreases goes.len(),
{
    if goes.len() == 0 {
        Seq::empty()
    } else {
        joined(goes.drop_last()) + goes.last()
    }
}

/// A record that is continued by one more go holds the draws of all goes.
pub proof fn lemma_one_more_go(start: Seq<u64>, goes: Seq<Seq<u64>>, before: Seq<u64>, after: Seq<u64>)
    requires
        before == start + joined(goes),
        continues(before, after),
    ensures
        after == start + joined(goes.push(taken(before, after))),
        continues(start, after),
{
    let go = taken(before, after);
    assert(goes.push(go).drop_last() =~= goes);
    assert(after =~= before + go) by {
        assert(after.take(before.len() as int) == before);
    }
    assert(after =~= start + (joined(goes) + go));
    assert(after.take(start.len() as int) =~= start);
}

} // verus!
