use tournament_sim::math::{binomial_tail_num, npow_fits_u64, pow_u64};

#[test]
fn binomial() {
    assert_eq!(tournament_sim::math::binomial(0, 0), 1);
    assert_eq!(tournament_sim::math::binomial(1, 0), 1);
    assert_eq!(tournament_sim::math::binomial(1, 1), 1);
    assert_eq!(tournament_sim::math::binomial(2, 0), 1);
    assert_eq!(tournament_sim::math::binomial(2, 1), 2);
    assert_eq!(tournament_sim::math::binomial(2, 2), 1);
    assert_eq!(tournament_sim::math::binomial(3, 0), 1);
    assert_eq!(tournament_sim::math::binomial(3, 1), 3);
    assert_eq!(tournament_sim::math::binomial(3, 2), 3);
    assert_eq!(tournament_sim::math::binomial(3, 3), 1);
}

#[test]
fn binomial_distribution() {
    // Mass of 2 losses plus mass of 3 losses in 3 games at p = 1/2, as
    // numerators over 10^3: together exactly one half.
    let den: u64 = 10;
    let mass2 = tournament_sim::math::binomial(3, 2) * pow_u64(5, 1) * pow_u64(5, 2);
    let mass3 = tournament_sim::math::binomial(3, 3) * pow_u64(5, 0) * pow_u64(5, 3);
    assert_eq!(mass2 + mass3, 500);
    assert_eq!(pow_u64(den, 3), 1000);
}

#[test]
fn tail_half_three_games() {
    // binomial_tail(0.5, 3, 1) == 0.5 exactly: 500 over 10^3.
    assert_eq!(binomial_tail_num(5, 10, 3, 1), 500);
}

#[test]
fn tail_majority_symmetry_examples() {
    // tail(p, n, (n-1)/2) + tail(1-p, n, (n-1)/2) == 1 for odd n.
    for n in [1u64, 3, 5, 7, 9, 15] {
        for p in 0u64..=10 {
            let t = (n - 1) / 2;
            let a = binomial_tail_num(p, 10, n, t);
            let b = binomial_tail_num(10 - p, 10, n, t);
            assert_eq!(a + b, pow_u64(10, n));
        }
    }
}

#[test]
fn tail_known_values() {
    // At p = 0.6, n = 1: the favored side loses the single game with
    // probability 0.4, so the tail at threshold 0 is 0.6 over 10.
    assert_eq!(binomial_tail_num(6, 10, 1, 0), 6);
    // Degenerate probabilities: a sure winner has the whole mass, a sure
    // loser none of it.
    assert_eq!(binomial_tail_num(10, 10, 3, 1), 1000);
    assert_eq!(binomial_tail_num(0, 10, 3, 1), 0);
}

#[test]
fn pow_and_fits() {
    assert_eq!(pow_u64(2, 10), 1024);
    assert_eq!(pow_u64(7, 0), 1);
    assert_eq!(pow_u64(0, 5), 0);
    assert!(npow_fits_u64(10, 15));
    assert!(!npow_fits_u64(10, 20));
}
