use duel_game::mechanics::{calculate_score, circular_diff, generate_objectives, score_base, Objective};
use duel_game::round::compute_turn_average;

// --- score_base ---

#[test]
fn verifie_base_score_exact() {
    assert_eq!(score_base(0), 100);
}

#[test]
fn verifie_base_score_boundaries() {
    assert_eq!(score_base(1), 80);
    assert_eq!(score_base(5), 80);
    assert_eq!(score_base(6), 60);
    assert_eq!(score_base(10), 60);
    assert_eq!(score_base(11), 40);
    assert_eq!(score_base(20), 40);
    assert_eq!(score_base(21), 20);
    assert_eq!(score_base(40), 20);
    assert_eq!(score_base(41), 0);
}

#[test]
fn verifie_base_score_large_diff() {
    assert_eq!(score_base(100), 0);
}

#[test]
fn score_base_of_negative_difference_is_zero() {
    assert_eq!(score_base(-1), 0);
    assert_eq!(score_base(i32::MIN), 0);
    assert_eq!(score_base(i32::MAX), 0);
}

#[test]
fn score_base_never_grows_with_the_difference() {
    let mut previous = score_base(0);
    for diff in 0..=60 {
        let base = score_base(diff);
        assert!(base <= previous);
        assert!([0, 20, 40, 60, 80, 100].contains(&base));
        previous = base;
    }
}

// --- circular_diff ---

#[test]
fn verifie_difference_circulaire_direct() {
    assert_eq!(circular_diff(80, 82), 2);
    assert_eq!(circular_diff(30, 36), 6);
}

#[test]
fn verifie_difference_circulaire_boucle() {
    assert_eq!(circular_diff(95, 15), 20);
    assert_eq!(circular_diff(5, 98), 7);
}

#[test]
fn verifie_difference_circulaire_zero() {
    assert_eq!(circular_diff(50, 50), 0);
    assert_eq!(circular_diff(0, 0), 0);
    assert_eq!(circular_diff(100, 100), 0);
}

#[test]
fn verifie_difference_circulaire_milieu() {
    assert_eq!(circular_diff(0, 50), 50);
}

#[test]
fn circular_diff_is_symmetric_and_at_most_half_the_dial() {
    for counter in (0..=100).step_by(7) {
        for objective in (0..=100).step_by(3) {
            let d = circular_diff(counter, objective);
            assert_eq!(d, circular_diff(objective, counter));
            assert!((0..=50).contains(&d));
        }
    }
    assert_eq!(circular_diff(0, 100), 0);
}

#[test]
fn circular_diff_beyond_the_dial_goes_negative() {
    assert_eq!(circular_diff(0, 150), -50);
}

// --- calculate_score ---

#[test]
fn verifie_calculer_score_exact_no_miss() {
    assert_eq!(calculate_score(0, 50, 0), 150);
}

#[test]
fn verifie_calculer_score_small_diff_with_miss() {
    assert_eq!(calculate_score(3, 50, 1), 65);
}

#[test]
fn verifie_calculer_score_medium_diff() {
    assert_eq!(calculate_score(8, 50, 0), 110);
}

#[test]
fn verifie_calculer_score_large_diff() {
    assert_eq!(calculate_score(15, 50, 0), 90);
}

#[test]
fn verifie_calculer_score_very_large_diff() {
    assert_eq!(calculate_score(30, 50, 0), 70);
}

#[test]
fn verifie_calculer_score_missed_entirely() {
    assert_eq!(calculate_score(50, 50, 0), 50);
}

#[test]
fn verifie_calculer_score_zero_strength() {
    assert_eq!(calculate_score(0, 0, 0), 100);
    assert_eq!(calculate_score(50, 0, 0), 0);
}

#[test]
fn verifie_calculer_score_uses_score_base() {
    for diff in [0, 3, 8, 15, 30, 50] {
        let expected = (score_base(diff) + 10) / 1;
        assert_eq!(calculate_score(diff, 10, 0), expected);
    }
}

#[test]
fn calculate_score_rounds_toward_zero() {
    // (0 + -7) / 2 rounds toward zero
    assert_eq!(calculate_score(50, -7, 1), -3);
    // (100 + 50) / -2 with miss = -3
    assert_eq!(calculate_score(0, 50, -3), -75);
    assert_eq!(calculate_score(50, -7, -3), 3);
}

#[test]
fn more_misses_never_raise_the_score() {
    for miss in 0..10 {
        assert!(calculate_score(3, 50, miss + 1) <= calculate_score(3, 50, miss));
        assert!(calculate_score(3, 50, miss) >= 0);
    }
}

// --- generate_objectives ---

#[test]
fn verifie_generer_objectifs_count() {
    for n in [1, 3, 5, 10] {
        assert_eq!(generate_objectives(n, true).len(), n);
        assert_eq!(generate_objectives(n, false).len(), n);
    }
}

#[test]
fn verifie_generer_objectifs_range() {
    let letters = generate_objectives(200, true);
    assert!(letters.iter().all(|&obj| matches!(obj, Objective::Letter(c, n) if c.is_ascii_lowercase() && (0..=99).contains(&n))));

    let numbers = generate_objectives(200, false);
    assert!(numbers
        .iter()
        .all(|&obj| matches!(obj, Objective::Number(n) if (0..=100).contains(&n))));
}

#[test]
fn generate_objectives_draws_varied_values() {
    let numbers = generate_objectives(200, false);
    let first = match numbers[0] {
        Objective::Number(n) => n,
        Objective::Letter(_, _) => panic!("letter in number mode"),
    };
    assert!(numbers.iter().any(|&obj| !matches!(obj, Objective::Number(n) if n == first)));

    let letters = generate_objectives(200, true);
    let first_letter = match letters[0] {
        Objective::Letter(c, _) => c,
        Objective::Number(_) => panic!("number in letter mode"),
    };
    assert!(letters.iter().any(|&obj| !matches!(obj, Objective::Letter(c, _) if c == first_letter)));
}

#[test]
fn generate_no_objective() {
    assert!(generate_objectives(0, true).is_empty());
    assert!(generate_objectives(0, false).is_empty());
}

// --- average of a turn, rounded up ---

#[test]
fn verifie_moyenne_ceiling() {
    let scores = vec![45i32, 130, 130, 55, 65];
    let total: i32 = scores.iter().sum();
    let avg = f64::ceil(total as f64 / scores.len() as f64) as i32;
    assert_eq!(avg, 85);
    assert_eq!(compute_turn_average(total, scores.len()), 85);
}

#[test]
fn verifie_moyenne_ceiling_non_integer() {
    let scores = vec![10i32, 10, 11];
    let total: i32 = scores.iter().sum();
    let avg = f64::ceil(total as f64 / scores.len() as f64) as i32;
    assert_eq!(avg, 11);
    assert_eq!(compute_turn_average(total, scores.len()), 11);
}
