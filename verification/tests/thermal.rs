use optima_rust::dice::Dice;
use optima_rust::thermal::Chain;

#[test]
fn start_has_no_link() {
    assert_eq!(Chain::start(), Chain { last: None, even: true });
}

#[test]
fn first_draw_at_or_above_the_fraction_succeeds_at_once() {
    let half = 1u64 << 63;
    let mut c = Chain::start();
    assert_eq!(c.feed(half, 1, 2), Some(true));
    assert_eq!(c, Chain::start());
    let mut c = Chain::start();
    assert_eq!(c.feed(u64::MAX, 1, 2), Some(true));
}

#[test]
fn first_draw_below_the_fraction_goes_on() {
    let half = 1u64 << 63;
    let mut c = Chain::start();
    assert_eq!(c.feed(half - 1, 1, 2), None);
    assert_eq!(c, Chain { last: Some(half - 1), even: false });
}

#[test]
fn a_chain_of_one_link_fails() {
    let mut c = Chain::start();
    assert_eq!(c.feed(10, 1, 2), None);
    assert_eq!(c.feed(10, 1, 2), Some(false));
    let mut c = Chain::start();
    assert_eq!(c.feed(10, 1, 2), None);
    assert_eq!(c.feed(11, 1, 2), Some(false));
}

#[test]
fn a_chain_of_two_links_succeeds() {
    let mut c = Chain::start();
    assert_eq!(c.feed(10, 1, 2), None);
    assert_eq!(c.feed(9, 1, 2), None);
    assert_eq!(c, Chain { last: Some(9), even: true });
    assert_eq!(c.feed(9, 1, 2), Some(true));
}

#[test]
fn a_chain_ends_at_zero_at_the_latest() {
    let mut c = Chain::start();
    assert_eq!(c.feed(2, 1, 1), None);
    assert_eq!(c.feed(1, 1, 1), None);
    assert_eq!(c.feed(0, 1, 1), None);
    assert_eq!(c.feed(0, 1, 1), Some(false));
}

#[test]
fn a_zero_fraction_always_succeeds() {
    for draw in [0u64, 1, 1 << 40, u64::MAX] {
        let mut c = Chain::start();
        assert_eq!(c.feed(draw, 0, 7), Some(true));
    }
}

#[test]
fn a_full_fraction_always_starts_a_chain() {
    for draw in [0u64, 1, 1 << 40, u64::MAX] {
        let mut c = Chain::start();
        assert_eq!(c.feed(draw, 7, 7), None);
    }
}

#[test]
fn the_first_link_compares_exactly_at_the_top_of_the_range() {
    let mut c = Chain::start();
    assert_eq!(c.feed(u64::MAX, u64::MAX, u64::MAX), None);
    let mut c = Chain::start();
    assert_eq!(c.feed(u64::MAX - 1, u64::MAX - 1, u64::MAX), None);
    let mut c = Chain::start();
    assert_eq!(c.feed(u64::MAX, u64::MAX - 1, u64::MAX), Some(true));
}

#[test]
fn a_hotter_trial_succeeds_at_once_on_more_draws() {
    let draw = 1u64 << 60;
    let mut cold = Chain::start();
    assert_eq!(cold.feed(draw, 1, 2), None);
    let mut hot = Chain::start();
    assert_eq!(hot.feed(draw, 1, 16), Some(true));
    let mut hotter = Chain::start();
    assert_eq!(hotter.feed(draw, 1, 1_000_000), Some(true));
}

#[test]
fn dice_of_one_seed_draw_one_stream() {
    let mut a = Dice::seeded(21);
    let mut b = Dice::seeded(21);
    let first: Vec<u64> = (0..50).map(|_| a.draw()).collect();
    let second: Vec<u64> = (0..50).map(|_| b.draw()).collect();
    assert_eq!(first, second);
    let mut c = Dice::seeded(22);
    let third: Vec<u64> = (0..50).map(|_| c.draw()).collect();
    assert_ne!(first, third);
}

#[test]
fn dice_draw_over_the_whole_range() {
    let mut dice = Dice::seeded(5);
    let draws: Vec<u64> = (0..2000).map(|_| dice.draw()).collect();
    assert!(draws.iter().any(|&d| d < 1 << 62));
    assert!(draws.iter().any(|&d| d >= 3 << 62));
    let mut distinct = draws.clone();
    distinct.sort();
    distinct.dedup();
    assert_eq!(distinct.len(), draws.len());
}

#[test]
fn dice_from_the_operating_system_draw() {
    let mut a = Dice::from_entropy();
    let mut b = Dice::from_entropy();
    let first: Vec<u64> = (0..8).map(|_| a.draw()).collect();
    let second: Vec<u64> = (0..8).map(|_| b.draw()).collect();
    assert_ne!(first, second);
}

/// The verdict of the chain rule on a list of draws, as the engine reaches
/// it: trial after trial, draw after draw.
fn verdict(draws: &[u64], gap: u128, temp: u64) -> Option<bool> {
    let wholes = gap / temp as u128;
    let rest = (gap % temp as u128) as u64;
    let mut next = draws.iter();
    let mut trial = |part: u64| -> Option<bool> {
        let mut chain = Chain::start();
        loop {
            if let Some(v) = chain.feed(*next.next()?, part, temp) {
                return Some(v);
            }
        }
    };
    for _ in 0..wholes {
        if !trial(temp)? {
            return Some(false);
        }
    }
    trial(rest)
}

#[test]
fn chains_fed_trial_after_trial_settle_a_worsening() {
    // A worsening of 1 at temperature 2: one trial of one half.
    assert_eq!(verdict(&[u64::MAX], 1, 2), Some(true));
    assert_eq!(verdict(&[10, 10], 1, 2), Some(false));
    assert_eq!(verdict(&[10, 9, 9], 1, 2), Some(true));
    assert_eq!(verdict(&[10], 1, 2), None);
    // A worsening of 5 at temperature 2: two trials of one, then one of one
    // half; the first trial that fails ends it.
    assert_eq!(verdict(&[7, 7], 5, 2), Some(false));
    assert_eq!(verdict(&[7, 6, 6, 3, 3], 5, 2), Some(false));
    assert_eq!(verdict(&[7, 6, 6, 3, 2, 9, u64::MAX], 5, 2), Some(true));
    assert_eq!(verdict(&[7, 6, 6, 3, 2, 9, 0, 0], 5, 2), Some(false));
    // Nothing is lost: one draw and success.
    assert_eq!(verdict(&[0], 0, 2), Some(true));
}

#[test]
fn on_one_stream_a_milder_worsening_at_a_higher_temperature_is_kept_too() {
    let mut dice = Dice::seeded(314);
    let mut kept = 0;
    for round in 0..4000u64 {
        // Draws near the bottom of the range make long chains likely.
        let shift = 52 + (round % 12);
        let draws: Vec<u64> = (0..64).map(|_| dice.draw() >> shift << (round % 3) * 20).collect();
        let temp = 1 + dice.draw() % 6;
        let gap = (dice.draw() % 20) as u128;
        let hotter = temp + dice.draw() % 6;
        let milder = gap - (dice.draw() % 4).min(gap as u64) as u128;
        if verdict(&draws, gap, temp) == Some(true) {
            kept += 1;
            assert_eq!(verdict(&draws, milder, hotter), Some(true));
            assert_eq!(verdict(&draws, gap, hotter), Some(true));
            assert_eq!(verdict(&draws, milder, temp), Some(true));
        }
    }
    assert!(kept > 200);
}
