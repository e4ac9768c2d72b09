use optima_rust::algorithms::{acceptance, Acceptance, OptAlghorithm, SimmulatedAnnealing};
use optima_rust::base::{Observer, Seen, Silent};
use optima_rust::coolers::{Cooler, QuadraticCooler};
use optima_rust::criterion::Criterion;
use optima_rust::evaluation::Evaluation;
use optima_rust::knapsack::{
    FlipOne, KnapsackPenalty, KnapsackProblem, KnapsackSolution, KnapsackValue,
};
use optima_rust::stop::{MaxSteps, NotGettingBetter};

const WEIGHTS: [u64; 7] = [1, 2, 3, 8, 12, 20, 30];
const VALUES: [u64; 7] = [4, 5, 1, 2, 8, 5, 6];

/// The tiny instance on a grid of a thousandth.
fn tiny(capacity: u64) -> KnapsackProblem {
    KnapsackProblem::new(
        0,
        WEIGHTS.iter().map(|w| w * 1000).collect(),
        VALUES.iter().map(|v| v * 1000).collect(),
        capacity * 1000,
    )
    .unwrap()
}

fn pick(items: &[usize]) -> KnapsackSolution {
    let mut flags = vec![false; 7];
    for &i in items {
        flags[i] = true;
    }
    KnapsackSolution::new(flags)
}

fn criterion(maximize: bool) -> Criterion<KnapsackValue, KnapsackPenalty> {
    Criterion::new(KnapsackPenalty, KnapsackValue, maximize)
}

/// The largest value of a selection that fits, by trying them all.
fn optimum(capacity: u64) -> i64 {
    let mut best = 0;
    for mask in 0u32..128 {
        let weight: u64 = (0..7).filter(|i| mask & (1 << i) != 0).map(|i| WEIGHTS[i]).sum();
        let value: u64 = (0..7).filter(|i| mask & (1 << i) != 0).map(|i| VALUES[i]).sum();
        if weight <= capacity && value as i64 > best {
            best = value as i64;
        }
    }
    best * 1000
}

struct Recorder {
    best: Vec<Evaluation>,
    current: Vec<Evaluation>,
    iterations: Vec<u64>,
    flushes: Vec<(u64, bool, bool)>,
    problems: Vec<u32>,
}

impl Recorder {
    fn new() -> Self {
        Recorder {
            best: vec![],
            current: vec![],
            iterations: vec![],
            flushes: vec![],
            problems: vec![],
        }
    }
}

impl Observer<KnapsackSolution> for Recorder {
    fn seen(&self) -> Seen {
        unreachable!()
    }

    fn observe(
        &mut self,
        iteration: u64,
        problem: &KnapsackProblem,
        best: Option<&KnapsackSolution>,
        current: Option<&KnapsackSolution>,
        terminal: bool,
    ) {
        self.problems.push(problem.id);
        if terminal {
            self.flushes.push((iteration, best.is_none(), current.is_none()));
        } else {
            self.iterations.push(iteration);
            self.best.push(best.unwrap().eval);
            self.current.push(current.unwrap().eval);
        }
    }
}

#[test]
fn acceptance_keeps_an_improvement_whatever_the_temperature() {
    assert_eq!(acceptance(1, 0), Acceptance::Accept);
    assert_eq!(acceptance(1, 1000), Acceptance::Accept);
    assert_eq!(acceptance(1 << 65, u64::MAX), Acceptance::Accept);
}

#[test]
fn acceptance_undoes_a_move_that_changes_nothing() {
    assert_eq!(acceptance(0, 0), Acceptance::Reject);
    assert_eq!(acceptance(0, 1000), Acceptance::Reject);
    assert_eq!(acceptance(0, u64::MAX), Acceptance::Reject);
}

#[test]
fn acceptance_undoes_a_worsening_at_temperature_zero() {
    assert_eq!(acceptance(-1, 0), Acceptance::Reject);
    assert_eq!(acceptance(-(1 << 65), 0), Acceptance::Reject);
}

#[test]
fn acceptance_leaves_a_worsening_at_a_positive_temperature_to_chance() {
    assert_eq!(acceptance(-1, 1), Acceptance::Thermal);
    assert_eq!(acceptance(-(1 << 65), u64::MAX), Acceptance::Thermal);
}

#[test]
fn annealing_finds_the_optimum_of_the_tiny_instance() {
    let problem = tiny(6);
    let c = criterion(true);
    let target = optimum(6);
    assert_eq!(target, 10_000);
    let mut found = 0;
    for seed in 0..100u64 {
        let mut engine = SimmulatedAnnealing::with_seed(
            MaxSteps::new(20_000).unwrap(),
            QuadraticCooler::new(1_000_000, 997, 1000).unwrap(),
            seed,
        );
        let mut mover = FlipOne::with_seed(seed + 1000);
        let start = KnapsackSolution::random_init(seed + 2000, 7);
        let best = engine.solve(&problem, start, &c, &mut mover, &mut Silent::new());
        if best.eval.feasible && best.eval.value == target {
            assert_eq!(best.picked_items, pick(&[0, 1, 2]).picked_items);
            found += 1;
        }
    }
    assert!(found >= 99);
}

#[test]
fn annealing_from_the_operating_system_seed_returns_a_graded_candidate() {
    let problem = tiny(6);
    let c = criterion(true);
    let mut engine = SimmulatedAnnealing::new(
        MaxSteps::new(2000).unwrap(),
        QuadraticCooler::new(1_000_000, 997, 1000).unwrap(),
    );
    let mut mover = FlipOne::new();
    let best = engine.solve(&problem, pick(&[]), &c, &mut mover, &mut Silent::new());
    let mut again = best.clone();
    c.evaluate(&problem, &mut again);
    assert_eq!(again.eval, best.eval);
    assert!(best.eval.feasible);
    assert!(best.eval.value <= 10_000);
    assert_eq!(engine.iterations(), 2000);
}

#[test]
fn max_steps_makes_exactly_as_many_iterations() {
    let problem = tiny(6);
    let c = criterion(true);
    for budget in [1u64, 2, 137, 5000] {
        let mut engine = SimmulatedAnnealing::with_seed(
            MaxSteps::new(budget).unwrap(),
            QuadraticCooler::new(1_000_000, 997, 1000).unwrap(),
            budget,
        );
        let mut mover = FlipOne::with_seed(7);
        let mut seen = Recorder::new();
        engine.solve(&problem, pick(&[]), &c, &mut mover, &mut seen);
        assert_eq!(engine.iterations(), budget);
        assert_eq!(seen.iterations, (1..=budget).collect::<Vec<u64>>());
        assert_eq!(seen.flushes, vec![(budget, true, true)]);
    }
}

#[test]
fn a_second_solve_starts_from_a_reset_schedule_and_budget() {
    let c = criterion(true);
    let mut engine = SimmulatedAnnealing::with_seed(
        MaxSteps::new(300).unwrap(),
        QuadraticCooler::new(1_000_000, 997, 1000).unwrap(),
        1,
    );
    let mut mover = FlipOne::with_seed(2);
    let first = KnapsackProblem::new(0, vec![1, 2, 3], vec![4, 5, 1], 6).unwrap();
    let second = KnapsackProblem::new(1, vec![1, 2, 3], vec![4, 5, 1], 3).unwrap();
    let mut seen = Recorder::new();
    engine.solve(&first, KnapsackSolution::new(vec![false; 3]), &c, &mut mover, &mut seen);
    assert_eq!(engine.iterations(), 300);
    let cooled = engine.cooler.temp();
    assert!(cooled < 1_000_000);
    engine.solve(&second, KnapsackSolution::new(vec![false; 3]), &c, &mut mover, &mut seen);
    assert_eq!(engine.iterations(), 300);
    assert_eq!(engine.cooler.temp(), cooled);
    assert_eq!(seen.problems.len(), 602);
    assert!(seen.problems[..301].iter().all(|&id| id == 0));
    assert!(seen.problems[301..].iter().all(|&id| id == 1));
}

#[test]
fn best_never_falls_from_a_feasible_start() {
    let problem = tiny(6);
    for maximize in [true, false] {
        let c = criterion(maximize);
        for seed in 0..10u64 {
            let mut engine = SimmulatedAnnealing::with_seed(
                MaxSteps::new(3000).unwrap(),
                QuadraticCooler::new(1_000_000, 997, 1000).unwrap(),
                seed,
            );
            let mut mover = FlipOne::with_seed(seed);
            let mut seen = Recorder::new();
            let best = engine.solve(&problem, pick(&[0]), &c, &mut mover, &mut seen);
            let mut floor = c.merit_value(&Evaluation::new(4000, 0));
            for e in &seen.best {
                assert!(e.feasible);
                assert!(c.merit_value(e) >= floor);
                floor = c.merit_value(e);
            }
            assert_eq!(*seen.best.last().unwrap(), best.eval);
        }
    }
}

#[test]
fn best_is_the_leader_of_the_trajectory() {
    let problem = tiny(6);
    let c = criterion(true);
    for seed in 0..10u64 {
        let mut engine = SimmulatedAnnealing::with_seed(
            MaxSteps::new(2000).unwrap(),
            QuadraticCooler::new(1_000_000, 997, 1000).unwrap(),
            seed,
        );
        let mut mover = FlipOne::with_seed(seed + 50);
        let mut seen = Recorder::new();
        let start = KnapsackSolution::random_init(seed, 7);
        let mut graded = start.clone();
        c.evaluate(&problem, &mut graded);
        let best = engine.solve(&problem, start, &c, &mut mover, &mut seen);
        assert!(!c.displaces(&graded.eval, &best.eval));
        for visited in &seen.current {
            assert!(!c.displaces(visited, &best.eval));
        }
        assert!(best.eval == graded.eval || seen.current.contains(&best.eval));
    }
}

#[test]
fn a_rejected_move_leaves_the_candidate_as_it_was() {
    let problem = tiny(6);
    let c = criterion(true);
    let mut engine = SimmulatedAnnealing::with_seed(
        MaxSteps::new(1).unwrap(),
        QuadraticCooler::new(2000, 997, 1000).unwrap(),
        4,
    );
    let mut mover = FlipOne::with_seed(5);
    let mut current = pick(&[0, 1]);
    c.evaluate(&problem, &mut current);
    let mut best = current.clone();
    let mut rejected = 0;
    let mut accepted = 0;
    for _ in 0..3000 {
        let before = current.clone();
        let best_before = best.clone();
        if engine.step(&problem, &mut current, &mut best, &c, &mut mover) {
            accepted += 1;
            assert_ne!(current.picked_items, before.picked_items);
            assert_ne!(current.eval.score(), before.eval.score());
            if c.displaces(&current.eval, &best_before.eval) {
                assert_eq!(best.picked_items, current.picked_items);
                assert_eq!(best.eval, current.eval);
            } else {
                assert_eq!(best.picked_items, best_before.picked_items);
                assert_eq!(best.eval, best_before.eval);
            }
        } else {
            rejected += 1;
            assert_eq!(current.picked_items, before.picked_items);
            assert_eq!(current.eval, before.eval);
            assert_eq!(best.picked_items, best_before.picked_items);
            assert_eq!(best.eval, best_before.eval);
        }
    }
    assert!(rejected > 0);
    assert!(accepted > 0);
}

#[test]
fn every_step_cools_the_schedule_once() {
    let problem = tiny(6);
    let c = criterion(true);
    let mut engine = SimmulatedAnnealing::with_seed(
        MaxSteps::new(1).unwrap(),
        QuadraticCooler::new(1000, 1, 2).unwrap(),
        4,
    );
    let mut mover = FlipOne::with_seed(5);
    let mut current = pick(&[]);
    c.evaluate(&problem, &mut current);
    let mut best = current.clone();
    engine.step(&problem, &mut current, &mut best, &c, &mut mover);
    assert_eq!(engine.cooler.temp(), 250);
    engine.step(&problem, &mut current, &mut best, &c, &mut mover);
    assert_eq!(engine.cooler.temp(), 62);
}

#[test]
fn at_temperature_zero_the_search_climbs_and_never_descends() {
    let problem = tiny(6);
    let c = criterion(true);
    for seed in 0..20u64 {
        let mut engine = SimmulatedAnnealing::with_seed(
            MaxSteps::new(500).unwrap(),
            QuadraticCooler::new(0, 1, 2).unwrap(),
            seed,
        );
        let mut mover = FlipOne::with_seed(seed + 7);
        let mut seen = Recorder::new();
        let start = pick(&[]);
        let best = engine.solve(&problem, start, &c, &mut mover, &mut seen);
        let mut last = 0i128;
        for e in &seen.current {
            assert!(e.score() >= last);
            last = e.score();
        }
        let top = seen.current.iter().filter(|e| e.feasible).map(|e| e.score()).max().unwrap();
        assert_eq!(best.eval.score(), top);
    }
}

#[test]
fn at_a_very_high_temperature_every_worsening_is_kept() {
    // Every item has a value and the capacity holds them all, so no move
    // leaves the score as it was: a move is undone only if the thermal trial
    // fails.
    let problem = KnapsackProblem::new(0, vec![1; 7], VALUES.to_vec(), 100).unwrap();
    let c = criterion(true);
    let mut engine = SimmulatedAnnealing::with_seed(
        MaxSteps::new(1).unwrap(),
        QuadraticCooler::new(u64::MAX, u32::MAX - 1, u32::MAX).unwrap(),
        8,
    );
    let mut mover = FlipOne::with_seed(9);
    let mut current = pick(&[0, 1, 2, 3, 4, 5, 6]);
    c.evaluate(&problem, &mut current);
    let mut best = current.clone();
    let mut worsenings = 0;
    for _ in 0..5000 {
        let before = current.eval.score();
        assert!(engine.step(&problem, &mut current, &mut best, &c, &mut mover));
        if current.eval.score() < before {
            worsenings += 1;
        }
    }
    assert!(worsenings > 2000);
    assert_eq!(best.eval.value, 31);
}

#[test]
fn a_cold_search_keeps_fewer_worsenings_than_a_hot_one() {
    let problem = KnapsackProblem::new(0, vec![1; 7], VALUES.to_vec(), 100).unwrap();
    let c = criterion(true);
    let mut kept = vec![];
    for temp in [1u64, 4, 1_000_000] {
        let mut engine = SimmulatedAnnealing::with_seed(
            MaxSteps::new(1).unwrap(),
            QuadraticCooler::new(temp, 1, 2).unwrap(),
            8,
        );
        let mut mover = FlipOne::with_seed(9);
        let mut current = pick(&[0, 1, 2, 3, 4, 5, 6]);
        c.evaluate(&problem, &mut current);
        let mut best = current.clone();
        let mut worsenings = 0;
        for _ in 0..4000 {
            engine.cooler.reset();
            let before = current.eval.score();
            engine.step(&problem, &mut current, &mut best, &c, &mut mover);
            if current.eval.score() < before {
                worsenings += 1;
            }
        }
        kept.push(worsenings);
    }
    assert!(kept[0] < kept[1]);
    assert!(kept[1] < kept[2]);
}

#[test]
fn thermal_acceptance_follows_the_exponential_law() {
    // One item of value 1: from the full selection the only move worsens the
    // score by one; from the empty one the only move improves it. At
    // temperature 1 a worsening is kept with probability exp(-1).
    let problem = KnapsackProblem::new(0, vec![1], vec![1], 100).unwrap();
    let c = criterion(true);
    let mut engine = SimmulatedAnnealing::with_seed(
        MaxSteps::new(1).unwrap(),
        QuadraticCooler::new(1, 1, 2).unwrap(),
        12,
    );
    let mut mover = FlipOne::with_seed(13);
    let mut trials = 0u32;
    let mut kept = 0u32;
    for _ in 0..20_000 {
        engine.cooler.reset();
        let mut current = KnapsackSolution::new(vec![true]);
        c.evaluate(&problem, &mut current);
        let mut best = current.clone();
        trials += 1;
        if engine.step(&problem, &mut current, &mut best, &c, &mut mover) {
            kept += 1;
        }
    }
    let share = kept as f64 / trials as f64;
    assert!((share - (-1.0f64).exp()).abs() < 0.015);
}

#[test]
fn thermal_acceptance_follows_the_exponential_law_beyond_one() {
    // A worsening of 5 at temperature 2 is kept with probability exp(-2.5).
    let problem = KnapsackProblem::new(0, vec![1], vec![5], 100).unwrap();
    let c = criterion(true);
    let mut engine = SimmulatedAnnealing::with_seed(
        MaxSteps::new(1).unwrap(),
        QuadraticCooler::new(2, 1, 2).unwrap(),
        14,
    );
    let mut mover = FlipOne::with_seed(15);
    let mut kept = 0u32;
    for _ in 0..40_000 {
        engine.cooler.reset();
        let mut current = KnapsackSolution::new(vec![true]);
        c.evaluate(&problem, &mut current);
        let mut best = current.clone();
        if engine.step(&problem, &mut current, &mut best, &c, &mut mover) {
            kept += 1;
        }
    }
    let share = kept as f64 / 40_000f64;
    assert!((share - (-2.5f64).exp()).abs() < 0.01);
}

#[test]
fn no_improvement_window_halts_that_many_iterations_after_the_last_rise() {
    let problem = tiny(6);
    let c = criterion(true);
    for seed in 0..20u64 {
        let mut engine = SimmulatedAnnealing::with_seed(
            NotGettingBetter::new(500, 0),
            QuadraticCooler::new(1_000_000, 997, 1000).unwrap(),
            seed,
        );
        let mut mover = FlipOne::with_seed(seed + 100);
        let mut seen = Recorder::new();
        let best = engine.solve(&problem, pick(&[]), &c, &mut mover, &mut seen);
        let n = engine.iterations();
        assert!(n >= 500);
        let mut last_rise = 0u64;
        let mut top = 0i128;
        for (i, e) in seen.best.iter().enumerate() {
            if e.score() > top {
                top = e.score();
                last_rise = i as u64 + 1;
            }
        }
        assert_eq!(n, last_rise + 500);
        if best.eval.value == optimum(6) {
            let reached = seen.best.iter().position(|e| e.value == optimum(6)).unwrap() as u64 + 1;
            assert!(n <= reached + 500);
        }
    }
}

#[test]
fn with_no_capacity_the_best_is_the_empty_selection() {
    let problem = tiny(0);
    let c = criterion(true);
    for seed in 0..20u64 {
        let mut engine = SimmulatedAnnealing::with_seed(
            MaxSteps::new(20_000).unwrap(),
            QuadraticCooler::new(1_000_000, 997, 1000).unwrap(),
            seed,
        );
        let mut mover = FlipOne::with_seed(seed + 300);
        let start = KnapsackSolution::random_init(seed + 600, 7);
        let best = engine.solve(&problem, start, &c, &mut mover, &mut Silent::new());
        assert_eq!(best.picked_items, vec![false; 7]);
        assert_eq!(best.eval.value, 0);
        assert_eq!(best.eval.penalty, 0);
        assert!(best.eval.feasible);
    }
}

#[test]
fn with_no_capacity_an_empty_start_is_never_displaced() {
    let problem = tiny(0);
    let c = criterion(true);
    let mut engine = SimmulatedAnnealing::new(
        MaxSteps::new(3000).unwrap(),
        QuadraticCooler::new(1_000_000, 997, 1000).unwrap(),
    );
    let mut mover = FlipOne::new();
    let best = engine.solve(&problem, pick(&[]), &c, &mut mover, &mut Silent::new());
    assert_eq!(best.picked_items, vec![false; 7]);
    assert_eq!(best.eval, Evaluation::new(0, 0));
}

#[test]
fn minimizing_returns_the_lowest_value_among_the_feasible_candidates_visited() {
    let problem = tiny(6);
    for seed in 0..20u64 {
        let mut lowest = vec![];
        for maximize in [true, false] {
            let c = criterion(maximize);
            let mut engine = SimmulatedAnnealing::with_seed(
                MaxSteps::new(4000).unwrap(),
                QuadraticCooler::new(1_000_000, 997, 1000).unwrap(),
                seed,
            );
            let mut mover = FlipOne::with_seed(seed + 40);
            let mut seen = Recorder::new();
            let best = engine.solve(&problem, pick(&[1]), &c, &mut mover, &mut seen);
            let visited: Vec<i64> = seen
                .current
                .iter()
                .filter(|e| e.feasible)
                .map(|e| e.value)
                .chain([5000])
                .collect();
            assert!(best.eval.feasible);
            if maximize {
                assert_eq!(best.eval.value, *visited.iter().max().unwrap());
            } else {
                assert_eq!(best.eval.value, *visited.iter().min().unwrap());
            }
            lowest.push(best.eval.value);
        }
        assert!(lowest[1] <= lowest[0]);
    }
}

#[test]
fn the_schedule_is_reset_and_cooled_once_per_iteration() {
    let problem = tiny(6);
    let c = criterion(true);
    for budget in [1u64, 2, 50, 700] {
        let mut engine = SimmulatedAnnealing::with_seed(
            MaxSteps::new(budget).unwrap(),
            QuadraticCooler::new(1_000_000, 997, 1000).unwrap(),
            budget,
        );
        let mut mover = FlipOne::with_seed(3);
        for _ in 0..2 {
            engine.solve(&problem, pick(&[]), &c, &mut mover, &mut Silent::new());
            let mut alone = QuadraticCooler::new(1_000_000, 997, 1000).unwrap();
            for _ in 0..budget {
                alone.cool();
            }
            assert_eq!(engine.cooler.temp(), alone.temp());
            assert_eq!(engine.cooler.initial_temp, 1_000_000);
        }
    }
}

#[test]
fn the_first_iteration_runs_at_the_initial_temperature() {
    // One item of value 1 and a start that holds it: the only move worsens
    // the score by one. A schedule that starts at zero and one that would
    // reach zero after one step differ in the first iteration alone.
    let problem = KnapsackProblem::new(0, vec![1], vec![1], 100).unwrap();
    let c = criterion(true);
    let mut kept = 0;
    for seed in 0..400u64 {
        let mut engine = SimmulatedAnnealing::with_seed(
            MaxSteps::new(1).unwrap(),
            QuadraticCooler::new(3, 1, 2).unwrap(),
            seed,
        );
        let mut mover = FlipOne::with_seed(seed);
        let mut seen = Recorder::new();
        engine.solve(&problem, KnapsackSolution::new(vec![true]), &c, &mut mover, &mut seen);
        assert_eq!(engine.cooler.temp(), 0);
        if seen.current[0].value == 0 {
            kept += 1;
        }
    }
    // exp(-1/3) is about 0.717; at temperature zero nothing would be kept.
    assert!(kept > 240 && kept < 330);
}

#[test]
fn engines_of_one_seed_make_one_run() {
    let problem = tiny(6);
    let c = criterion(true);
    let mut runs = vec![];
    for _ in 0..2 {
        let mut engine = SimmulatedAnnealing::with_seed(
            MaxSteps::new(800).unwrap(),
            QuadraticCooler::new(1_000_000, 997, 1000).unwrap(),
            99,
        );
        let mut mover = FlipOne::with_seed(98);
        let mut seen = Recorder::new();
        let best = engine.solve(&problem, pick(&[4]), &c, &mut mover, &mut seen);
        runs.push((best.picked_items, seen.current, seen.best));
    }
    assert_eq!(runs[0].0, runs[1].0);
    assert_eq!(runs[0].1, runs[1].1);
    assert_eq!(runs[0].2, runs[1].2);
}
