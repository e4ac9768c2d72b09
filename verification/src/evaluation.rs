use vstd::prelude::*;

verus! {

/// What a criterion has measured of one candidate.
#[derive(Clone, Copy, Debug, PartialEq, Eq, Structural)]
pub struct Evaluation {
    /// The objective value.
    pub value: i64,
    /// Whether every constraint holds.
    pub feasible: bool,
    /// Zero for a feasible candidate, otherwise the signed amount of violation.
    pub penalty: i64,
}

impl Evaluation {
    /// The feasibility bit agrees with the penalty.
    pub open spec fn wf(self) -> bool {
        self.feasible <==> self.penalty == 0
    }

    /// The record of a candidate with objective `value` and constraint
    /// violation `penalty`.
    pub open spec fn of(value: i64, penalty: i64) -> Evaluation {
        Evaluation { value, feasible: penalty == 0, penalty }
    }

    /// The aggregate that comparisons go by: objective plus penalty.
    pub open spec fn aggregate(self) -> int {
        self.value + self.penalty
    }

    /// Builds the record of a candidate from its objective and its penalty.
    pub fn new(value: i64, penalty: i64) -> (e: Evaluation)
        ensures
            e == Evaluation::of(value, penalty),
            e.wf(),
    {
        Evaluation { value, feasible: penalty == 0, penalty }
    }

    /// Objective plus penalty, without overflow.
    pub fn score(&self) -> (s: i128)
        ensures
            s == self.aggregate(),
    {
        self.value as i128 + self.penalty as i128
    }
}

impl Default for Evaluation {
    /// The zeroed record that a candidate carries before its first evaluation.
    fn default() -> (e: Evaluation)
        ensures
            e == Evaluation::of(0, 0),
            e.wf(),
    {
        Evaluation { value: 0, feasible: true, penalty: 0 }
    }
}

} // verus!
