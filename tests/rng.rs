use set_genome::rng::{capped_weight, share};
use set_genome::{GenomeRng, PROBABILITY_ONE, WEIGHT_ONE};

#[test]
fn respect_weight_cap() {
    let cap = WEIGHT_ONE;
    let mut rng = GenomeRng::new(0, (WEIGHT_ONE / 2) as u64, cap);
    let mut weight = 0;

    for _ in 0..1000 {
        weight = rng.weight_perturbation(weight);
        assert!(weight <= cap && weight >= -cap, "{}", weight);
    }
}

#[test]
fn capped_weight_reflects_and_halves() {
    // 0.9 + 0.3 overshoots, the perturbation becomes -0.15
    assert_eq!(capped_weight(900_000, 300_000, 1_000_000), 750_000);
    // -0.5 - 4.0 overshoots twice: +2.0 overshoots too, -1.0 lands at -1.5 (out), +0.5 lands at 0.0
    assert_eq!(capped_weight(-500_000, -4_000_000, 1_000_000), 0);
    assert_eq!(capped_weight(100, 50, 1_000), 150);
    assert_eq!(capped_weight(1_000, 0, 1_000), 1_000);
}

#[test]
fn share_rounds_up_and_stays_below_all() {
    assert_eq!(share(PROBABILITY_ONE / 2, 3), 2);
    assert_eq!(share(PROBABILITY_ONE, 7), 7);
    assert_eq!(share(2 * PROBABILITY_ONE, 7), 7);
    assert_eq!(share(0, 7), 0);
    assert_eq!(share(1, 7), 1);
}

#[test]
fn below_stays_below() {
    let mut rng = GenomeRng::new(7, 0, WEIGHT_ONE);
    let mut seen_nonzero = false;
    for _ in 0..200 {
        let r = rng.below(5);
        assert!(r < 5);
        if r != 0 {
            seen_nonzero = true;
        }
    }
    assert!(seen_nonzero);
}

#[test]
fn gamble_extremes() {
    let mut rng = GenomeRng::new(3, 0, WEIGHT_ONE);
    for _ in 0..100 {
        assert!(rng.gamble(PROBABILITY_ONE));
        assert!(!rng.gamble(0));
    }
}

#[test]
fn perturbation_stays_within_six_deviations() {
    let mut rng = GenomeRng::new(11, 100_000, WEIGHT_ONE);
    let mut varied = false;
    for _ in 0..500 {
        let p = rng.perturbation();
        assert!(p >= -600_000 && p <= 600_000);
        if p != 0 {
            varied = true;
        }
    }
    assert!(varied);
}
