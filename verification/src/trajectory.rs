use vstd::prelude::*;
use crate::base::{Notice, Seen};
use crate::criterion::{merit_of, supersedes_of};
use crate::evaluation::Evaluation;

verus! {

/// The evaluation of the best candidate among the first `n` entries of a
/// trajectory: the first entry, replaced in turn by every later entry that
/// displaces the best before it.
pub open spec fn running_best(maximize: bool, path: Seq<Evaluation>, n: int) -> Evaluation
    decreases n,
{
    if n <= 1 {
        path[0]
    } else {
        let before = running_best(maximize, path, n - 1);
        if supersedes_of(maximize, path[n - 1], before) {
            path[n - 1]
        } else {
            before
        }
    }
}

/// The merits never fall along the run.
pub open spec fn never_falls(merits: Seq<i128>) -> bool {
    forall|i: int, j: int| 0 <= i <= j < merits.len() ==> merits[i] <= merits[j]
}

/// The trajectory never steps down in merit.
pub open spec fn never_descends(maximize: bool, path: Seq<Evaluation>) -> bool {
    forall|i: int|
        0 <= i < path.len() - 1 ==> merit_of(maximize, #[trigger] path[i]) <= merit_of(
            maximize,
            path[i + 1],
        )
}

/// From one entry to the next the trajectory stays where it is or changes
/// its merit: it never moves along a level.
pub open spec fn no_level_step(maximize: bool, path: Seq<Evaluation>) -> bool {
    forall|i: int|
        0 <= i < path.len() - 1 ==> #[trigger] path[i + 1] == path[i] || merit_of(maximize, path[i + 1])
            != merit_of(maximize, path[i])
}

/// The running best is an entry of the trajectory that no entry displaces.
pub proof fn lemma_running_best_leads(maximize: bool, path: Seq<Evaluation>, n: int)
    requires
        1 <= n <= path.len(),
    ensures
        exists|i: int| 0 <= i < n && path[i] == running_best(maximize, path, n),
        forall|i: int|
            0 <= i < n ==> !supersedes_of(maximize, #[trigger] path[i], running_best(maximize, path, n)),
    decreases n,
{
    if n > 1 {
        lemma_running_best_leads(maximize, path, n - 1);
        let before = running_best(maximize, path, n - 1);
        let w = choose|i: int| 0 <= i < n - 1 && path[i] == before;
        if supersedes_of(maximize, path[n - 1], before) {
            assert(path[n - 1] == running_best(maximize, path, n));
        } else {
            assert(path[w] == running_best(maximize, path, n));
        }
    } else {
        assert(path[0] == running_best(maximize, path, n));
    }
}

/// From one entry to the next the running best stays, or gives way to an
/// evaluation that displaces it. Once it is feasible it stays feasible and
/// its merit never falls.
pub proof fn lemma_running_best_rises(maximize: bool, path: Seq<Evaluation>, m: int, n: int)
    requires
        1 <= m <= n <= path.len(),
    ensures
        running_best(maximize, path, n) == running_best(maximize, path, m) || supersedes_of(
            maximize,
            running_best(maximize, path, n),
            running_best(maximize, path, m),
        ),
        running_best(maximize, path, m).feasible ==> running_best(maximize, path, n).feasible
            && merit_of(maximize, running_best(maximize, path, m)) <= merit_of(
            maximize,
            running_best(maximize, path, n),
        ),
    decreases n - m,
{
    if m < n {
        lemma_running_best_rises(maximize, path, m, n - 1);
    }
}

/// An entry appended to a trajectory leaves the running best of every prefix
/// as it was.
pub proof fn lemma_running_best_extended(maximize: bool, path: Seq<Evaluation>, next: Evaluation, n: int)
    requires
        1 <= n <= path.len(),
    ensures
        running_best(maximize, path.push(next), n) == running_best(maximize, path, n),
    decreases n,
{
    if n > 1 {
        lemma_running_best_extended(maximize, path, next, n - 1);
    }
}

/// A count as the engines report it: exact up to `u64::MAX`, which stands
/// for every larger count.
pub open spec fn counted(n: int) -> u64 {
    if n <= u64::MAX {
        n as u64
    } else {
        u64::MAX
    }
}

/// What an engine tells its observer after iteration `i + 1` of a run with
/// the trajectory `path`, whose entry for that iteration is at
/// `i + offset`: the count, the running best and the live candidate.
pub open spec fn told_at(problem: u32, maximize: bool, path: Seq<Evaluation>, offset: int, i: int) -> Notice {
    Notice {
        iteration: counted(i + 1),
        problem,
        best: Some(running_best(maximize, path, i + offset + 1)),
        current: Some(path[i + offset]),
        terminal: false,
    }
}

/// The notices of the first `n` iterations, in order.
pub open spec fn told(problem: u32, maximize: bool, path: Seq<Evaluation>, offset: int, n: int) -> Seen {
    Seq::new(n as nat, |i: int| told_at(problem, maximize, path, offset, i))
}

/// The closing notice of a solve of `n` iterations.
pub open spec fn closing(problem: u32, n: int) -> Notice {
    Notice { iteration: counted(n), problem, best: None, current: None, terminal: true }
}

/// One more entry and one more notice extend what was told by that notice.
pub proof fn lemma_told_extended(
    problem: u32,
    maximize: bool,
    path: Seq<Evaluation>,
    next: Evaluation,
    offset: int,
    n: int,
)
    requires
        0 <= offset <= 1,
        n >= 0,
        path.len() == n + offset,
    ensures
        told(problem, maximize, path.push(next), offset, n + 1) == told(
            problem,
            maximize,
            path,
            offset,
            n,
        ).push(told_at(problem, maximize, path.push(next), offset, n)),
{
    let longer = path.push(next);
    let a = told(problem, maximize, longer, offset, n + 1);
    let b = told(problem, maximize, path, offset, n).push(told_at(problem, maximize, longer, offset, n));
    assert forall|i: int| 0 <= i < n + 1 implies a[i] == b[i] by {
        if i < n {
            lemma_running_best_extended(maximize, path, next, i + offset + 1);
            assert(longer[i + offset] == path[i + offset]);
        }
    }
    assert(a =~= b);
}

/// One more iteration extends a trajectory and what the stop criterion saw
/// of it. The iteration ends at `next`, and its best is `next` where the
/// move was kept and displaces the best before it.
pub proof fn lemma_trajectory_extended(
    maximize: bool,
    path: Seq<Evaluation>,
    ticks: Seq<i128>,
    next: Evaluation,
    kept: bool,
    best: Evaluation,
    merit: i128,
    frozen: bool,
)
    requires
        path.len() == ticks.len() + 1,
        forall|i: int|
            0 <= i < ticks.len() ==> #[trigger] ticks[i] == merit_of(
                maximize,
                running_best(maximize, path, i + 2),
            ),
        no_level_step(maximize, path),
        frozen ==> never_descends(maximize, path),
        !kept ==> next == path[path.len() - 1],
        kept ==> merit_of(maximize, next) != merit_of(maximize, path[path.len() - 1]),
        kept && frozen ==> merit_of(maximize, next) > merit_of(maximize, path[path.len() - 1]),
        best == (if kept && supersedes_of(
            maximize,
            next,
            running_best(maximize, path, path.len() as int),
        ) {
            next
        } else {
            running_best(maximize, path, path.len() as int)
        }),
        merit == merit_of(maximize, best),
    ensures
        best == running_best(maximize, path.push(next), path.len() as int + 1),
        forall|i: int|
            0 <= i < ticks.len() + 1 ==> #[trigger] ticks.push(merit)[i] == merit_of(
                maximize,
                running_best(maximize, path.push(next), i + 2),
            ),
        no_level_step(maximize, path.push(next)),
        frozen ==> never_descends(maximize, path.push(next)),
{
    let longer = path.push(next);
    let last = path.len() - 1;
    lemma_running_best_leads(maximize, path, path.len() as int);
    lemma_running_best_extended(maximize, path, next, path.len() as int);
    assert(longer[longer.len() - 1] == next);
    assert(best == running_best(maximize, longer, longer.len() as int));
    assert forall|i: int| 0 <= i < ticks.len() + 1 implies #[trigger] ticks.push(merit)[i] == merit_of(
        maximize,
        running_best(maximize, longer, i + 2),
    ) by {
        if i < ticks.len() {
            lemma_running_best_extended(maximize, path, next, i + 2);
        }
    }
    assert forall|i: int| 0 <= i < longer.len() - 1 implies #[trigger] longer[i + 1] == longer[i]
        || merit_of(maximize, longer[i + 1]) != merit_of(maximize, longer[i]) by {
        assert(longer[i] == path[i]);
        if i < last {
            assert(longer[i + 1] == path[i + 1]);
        }
    }
    if frozen {
        assert forall|i: int| 0 <= i < longer.len() - 1 implies merit_of(maximize, #[trigger] longer[i])
            <= merit_of(maximize, longer[i + 1]) by {
            assert(longer[i] == path[i]);
            if i < last {
                assert(longer[i + 1] == path[i + 1]);
            }
        }
    }
}

/// What the observer has heard grows by the notice of the iteration that
/// ends a trajectory of one more entry.
pub proof fn lemma_heard_extended(
    heard: Seen,
    problem: u32,
    maximize: bool,
    path: Seq<Evaluation>,
    next: Evaluation,
    offset: int,
    n: int,
    notice: Notice,
)
    requires
        0 <= offset <= 1,
        n >= 0,
        path.len() == n + offset,
        notice == told_at(problem, maximize, path.push(next), offset, n),
    ensures
        (heard + told(problem, maximize, path, offset, n)).push(notice) == heard + told(
            problem,
            maximize,
            path.push(next),
            offset,
            n + 1,
        ),
{
    lemma_told_extended(problem, maximize, path, next, offset, n);
    assert((heard + told(problem, maximize, path, offset, n)).push(notice) =~= heard + told(
        problem,
        maximize,
        path.push(next),
        offset,
        n + 1,
    ));
}

} // verus!
