use optima_rust::evaluation::Evaluation;

#[test]
fn new_sets_the_feasibility_bit_from_the_penalty() {
    let clean = Evaluation::new(9, 0);
    assert!(clean.feasible);
    assert_eq!(clean.value, 9);
    assert_eq!(clean.penalty, 0);
    let over = Evaluation::new(9, -3);
    assert!(!over.feasible);
    assert_eq!(over.value, 9);
    assert_eq!(over.penalty, -3);
}

#[test]
fn score_adds_value_and_penalty() {
    assert_eq!(Evaluation::new(9, -3).score(), 6);
    assert_eq!(Evaluation::new(0, 0).score(), 0);
    assert_eq!(Evaluation::new(-5, -7).score(), -12);
}

#[test]
fn score_does_not_overflow_at_the_ends_of_the_range() {
    assert_eq!(Evaluation::new(i64::MAX, i64::MAX).score(), 2 * (i64::MAX as i128));
    assert_eq!(Evaluation::new(i64::MIN, i64::MIN).score(), 2 * (i64::MIN as i128));
}

#[test]
fn default_is_zeroed_and_feasible() {
    let e = Evaluation::default();
    assert_eq!(e, Evaluation::new(0, 0));
    assert_eq!(e.value, 0);
    assert_eq!(e.penalty, 0);
    assert!(e.feasible);
}
