use optima_rust::config::ConfigError;
use optima_rust::stop::{MaxSteps, NotGettingBetter, StopCriteria};

#[test]
fn max_steps_halts_at_the_tick_that_uses_up_the_budget() {
    let mut m = MaxSteps::new(3).unwrap();
    assert!(!m.should_stop(10));
    assert!(!m.should_stop(10));
    assert!(m.should_stop(10));
}

#[test]
fn max_steps_of_one_halts_at_once() {
    let mut m = MaxSteps::new(1).unwrap();
    assert!(m.should_stop(-4));
}

#[test]
fn max_steps_keeps_halting_once_the_budget_is_spent() {
    let mut m = MaxSteps::new(2).unwrap();
    assert!(!m.should_stop(0));
    assert!(m.should_stop(0));
    assert!(m.should_stop(0));
    assert_eq!(m.steps, 2);
}

#[test]
fn max_steps_ignores_the_merit() {
    let mut m = MaxSteps::new(4).unwrap();
    assert!(!m.should_stop(i128::MIN));
    assert!(!m.should_stop(i128::MAX));
    assert!(!m.should_stop(0));
    assert!(m.should_stop(1));
}

#[test]
fn max_steps_of_zero_is_refused() {
    assert_eq!(MaxSteps::new(0).err(), Some(ConfigError::NonPositiveMaxSteps));
    assert_eq!(MaxSteps::new(1).ok(), Some(MaxSteps { max_steps: 1, steps: 0 }));
}

#[test]
fn max_steps_reset_zeroes_the_counter() {
    let mut m = MaxSteps::new(2).unwrap();
    assert!(!m.should_stop(0));
    m.reset();
    assert_eq!(m, MaxSteps { max_steps: 2, steps: 0 });
    assert!(!m.should_stop(0));
    assert!(m.should_stop(0));
}

#[test]
fn max_steps_counts_exactly_its_budget() {
    for budget in [1u64, 2, 7, 500] {
        let mut m = MaxSteps::new(budget).unwrap();
        let mut ticks = 0u64;
        loop {
            ticks += 1;
            if m.should_stop(ticks as i128) {
                break;
            }
        }
        assert_eq!(ticks, budget);
    }
}

#[test]
fn window_halts_after_as_many_ticks_without_a_rise() {
    let mut n = NotGettingBetter::new(3, 0);
    assert!(!n.should_stop(5));
    assert!(!n.should_stop(5));
    assert!(n.should_stop(5));
}

#[test]
fn a_rise_starts_the_window_again() {
    let mut n = NotGettingBetter::new(3, 0);
    assert!(!n.should_stop(5));
    assert!(!n.should_stop(5));
    assert!(!n.should_stop(6));
    assert!(!n.should_stop(6));
    assert!(!n.should_stop(6));
    assert!(n.should_stop(6));
}

#[test]
fn a_rise_must_exceed_the_least_delta() {
    let mut n = NotGettingBetter::new(2, 10);
    assert!(!n.should_stop(100));
    assert!(n.should_stop(110));
    let mut n = NotGettingBetter::new(2, 10);
    assert!(!n.should_stop(100));
    assert!(!n.should_stop(111));
    assert_eq!(n.reference, Some(111));
    assert_eq!(n.stale, 0);
}

#[test]
fn a_fall_is_no_rise() {
    let mut n = NotGettingBetter::new(2, 0);
    assert!(!n.should_stop(100));
    assert!(n.should_stop(50));
    assert_eq!(n.reference, Some(100));
}

#[test]
fn rises_are_told_apart_across_the_whole_range() {
    let mut n = NotGettingBetter::new(5, u64::MAX);
    assert!(!n.should_stop(i128::MIN));
    assert!(!n.should_stop(i128::MAX));
    assert_eq!(n.reference, Some(i128::MAX));
    assert_eq!(n.stale, 0);
    let mut n = NotGettingBetter::new(5, u64::MAX);
    assert!(!n.should_stop(-1));
    assert!(!n.should_stop(u64::MAX as i128 - 1));
    assert_eq!(n.reference, Some(-1));
    assert_eq!(n.stale, 2);
    assert!(!n.should_stop(u64::MAX as i128));
    assert_eq!(n.reference, Some(u64::MAX as i128));
    assert_eq!(n.stale, 0);
}

#[test]
fn window_of_zero_halts_at_once() {
    let mut n = NotGettingBetter::new(0, 0);
    assert!(n.should_stop(1));
}

#[test]
fn window_needs_at_least_as_many_ticks() {
    for window in [1u64, 2, 10, 500] {
        let mut n = NotGettingBetter::new(window, 0);
        let mut ticks = 0u64;
        loop {
            ticks += 1;
            if n.should_stop(0) {
                break;
            }
        }
        assert_eq!(ticks, window);
        let mut n = NotGettingBetter::new(window, 0);
        let mut ticks = 0u64;
        loop {
            ticks += 1;
            let merit = if ticks <= 20 { ticks as i128 } else { 20 };
            if n.should_stop(merit) {
                break;
            }
        }
        assert!(ticks >= window);
        assert_eq!(ticks, if window == 1 { 1 } else { 20 + window });
    }
}

#[test]
fn window_reset_forgets_the_reference() {
    let mut n = NotGettingBetter::new(3, 1);
    assert!(!n.should_stop(9));
    assert!(!n.should_stop(9));
    n.reset();
    assert_eq!(n, NotGettingBetter { window: 3, min_delta: 1, reference: None, stale: 0 });
    assert!(!n.should_stop(1));
    assert!(!n.should_stop(1));
    assert!(n.should_stop(1));
}
