use dice::{Expression, ExpressionResult, Roller};
use rand::rngs::StdRng;
use rand::SeedableRng;

fn roll(text: &str, seed: u64, trance: bool) -> ExpressionResult {
    let e: Expression = text.parse().unwrap();
    let mut roller = Roller::new(StdRng::seed_from_u64(seed), e.max);
    e.execute(&mut roller, trance)
}

#[test]
fn one_sided_dice_are_deterministic() {
    let r = roll("3d1", 7, false);
    assert_eq!(vec![1, 1, 1], r.0);
    assert_eq!(3, r.total());
}

#[test]
fn windowing_keeps_the_requested_count() {
    // Advantage rolls extra dice and keeps the requested number.
    let r = roll("2d1+3", 11, false);
    assert_eq!(vec![1, 1], r.0);
    // Disadvantage does too.
    let r = roll("2d1-3", 11, false);
    assert_eq!(vec![1, 1], r.0);
    // So does a plain roll of real dice.
    let r = roll("5d6", 13, false);
    assert_eq!(5, r.0.len());
}

#[test]
fn zero_dice_roll_to_nothing() {
    let r = roll("0d6", 17, false);
    assert_eq!(0, r.0.len());
    assert_eq!(0, r.total());
}

#[test]
fn values_stay_on_the_die() {
    for seed in 0..20 {
        let r = roll("4d6+2", seed, false);
        assert_eq!(4, r.0.len());
        assert!(r.0.iter().all(|&v| 1 <= v && v <= 6));
    }
}

#[test]
fn results_are_sorted_descending() {
    for seed in 0..20 {
        let r = roll("6d10", seed, false);
        assert!(r.0.windows(2).all(|w| w[0] >= w[1]));
    }
}

#[test]
fn threshold_below_every_face_never_explodes() {
    // A threshold of 2 on one-sided dice can never trigger.
    let r = roll("2d1!2", 3, false);
    assert_eq!(vec![1, 1], r.0);
}

#[test]
fn every_qualifying_die_explodes_exactly_once() {
    // Each die at or above the threshold owes exactly one further die, whether
    // it came from the window or from a chain, so the number of extra dice
    // equals the number of qualifying values in the final set.
    for seed in 0..20 {
        let r = roll("2d6!4", seed, false);
        let qualifying = r.0.iter().filter(|&&v| v >= 4).count();
        assert_eq!(r.0.len(), 2 + qualifying);
        assert!(r.0.len() >= 2);
        assert!(r.0.iter().all(|&v| 1 <= v && v <= 6));
    }
}

#[test]
fn trance_explodes_at_one_below_max() {
    // With the destructive-trance toggle on, every die at max or one below it
    // explodes, whatever the expression says.
    for seed in 0..20 {
        let r = roll("2d6", seed, true);
        let qualifying = r.0.iter().filter(|&&v| v >= 5).count();
        assert_eq!(r.0.len(), 2 + qualifying);
    }
}

#[test]
fn total_is_the_sum_in_any_order() {
    for seed in 0..10 {
        let r = roll("4d8!6", seed, false);
        let sum: usize = r.0.iter().sum();
        assert_eq!(sum, r.total());
    }
    assert_eq!(21, ExpressionResult(vec![6, 5, 4, 3, 2, 1]).total());
    assert_eq!(21, ExpressionResult(vec![1, 2, 3, 4, 5, 6]).total());
    assert_eq!(0, ExpressionResult(vec![]).total());
}

#[test]
fn sampling_stays_in_range() {
    let mut roller = Roller::new(StdRng::seed_from_u64(99), 6);
    let values = roller.sample_iter(100);
    assert_eq!(100, values.len());
    assert!(values.iter().all(|&v| 1 <= v && v <= 6));
    // The draws are not all one value: the roller really samples.
    assert!(values.iter().any(|&v| v != values[0]));
}

#[test]
fn explosion_chains_end_below_the_threshold() {
    let mut roller = Roller::new(StdRng::seed_from_u64(5), 6);
    for _ in 0..20 {
        let chain = roller.explode(4);
        assert!(chain.len() >= 1);
        assert!(chain[..chain.len() - 1].iter().all(|&v| v >= 4));
        assert!(chain[chain.len() - 1] < 4);
        assert!(chain.iter().all(|&v| 1 <= v && v <= 6));
    }
}

#[test]
fn render_pads_and_joins() {
    assert_eq!("  7", ExpressionResult(vec![7]).render());
    assert_eq!(" 15 = (12 + 3)", ExpressionResult(vec![12, 3]).render());
    assert_eq!("150 = (100 + 50)", ExpressionResult(vec![100, 50]).render());
    assert_eq!("1000", ExpressionResult(vec![1000]).render());
    assert_eq!("  3 = (1 + 1 + 1)", roll("3d1", 1, false).render());
    assert_eq!("  1", roll("1d1", 1, false).render());
}
