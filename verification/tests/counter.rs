use duel_game::counter::{decide_key, objective_score, tick, KeyDecision, KeyInput};
use duel_game::mechanics::{calculate_score, circular_diff, Objective};

#[test]
fn verifie_pipeline_score_touche_correcte_exacte() {
    let letter = 'a';
    let pressed = 'a';
    let counter = 10i32;
    let target = 10i32;
    let strength = 50i32;
    let miss = 0i32;

    let score = if pressed == letter {
        let diff = circular_diff(counter, target);
        calculate_score(diff, strength, miss)
    } else {
        0
    };

    assert_eq!(score, 150);
    assert_eq!(
        objective_score(Objective::Letter(letter, target), Some(pressed), false, counter, miss, strength),
        Some(150)
    );
}

#[test]
fn verifie_pipeline_score_touche_correcte_avec_difference() {
    let letter = 'z';
    let pressed = 'z';
    let counter = 30i32;
    let target = 35i32;
    let strength = 50i32;
    let miss = 0i32;

    let score = if pressed == letter {
        let diff = circular_diff(counter, target);
        calculate_score(diff, strength, miss)
    } else {
        0
    };

    assert_eq!(score, 130);
    assert_eq!(
        objective_score(Objective::Letter(letter, target), Some(pressed), false, counter, miss, strength),
        Some(130)
    );
}

#[test]
fn verifie_pipeline_score_touche_incorrecte() {
    let letter = 'a';
    let pressed = 'b';
    let counter = 10i32;
    let target = 10i32;
    let strength = 50i32;
    let miss = 0i32;

    let score = if pressed == letter {
        let diff = circular_diff(counter, target);
        calculate_score(diff, strength, miss)
    } else {
        0
    };

    assert_eq!(score, 0);
    assert_eq!(
        objective_score(Objective::Letter(letter, target), Some(pressed), false, counter, miss, strength),
        Some(0)
    );
}

#[test]
fn verifie_pipeline_score_avec_rate() {
    let letter = 'a';
    let pressed = 'a';
    let counter = 10i32;
    let target = 10i32;
    let strength = 50i32;
    let miss = 1i32;

    let score = if pressed == letter {
        let diff = circular_diff(counter, target);
        calculate_score(diff, strength, miss)
    } else {
        0
    };

    assert_eq!(score, 75);
    assert_eq!(
        objective_score(Objective::Letter(letter, target), Some(pressed), false, counter, miss, strength),
        Some(75)
    );
}

#[test]
fn verifie_pipeline_score_mode_nombre_avec_entree() {
    let target = 80i32;
    let counter = 82i32;
    let strength = 50i32;
    let miss = 0i32;
    let pressed_enter = true;

    let score = if !pressed_enter {
        0
    } else {
        let diff = circular_diff(counter, target);
        calculate_score(diff, strength, miss)
    };

    assert_eq!(score, 130);
    assert_eq!(
        objective_score(Objective::Number(target), None, pressed_enter, counter, miss, strength),
        Some(130)
    );
}

#[test]
fn verifie_pipeline_score_mode_nombre_sans_entree() {
    let pressed_enter = false;
    let score = if !pressed_enter { 0 } else { 999 };
    assert_eq!(score, 0);
    assert_eq!(objective_score(Objective::Number(50), None, pressed_enter, 50, 0, 50), Some(0));
}

#[test]
fn verifie_pipeline_score_boucle_circulaire() {
    let target = 15i32;
    let counter = 95i32;
    let strength = 50i32;
    let miss = 0i32;
    let pressed_enter = true;

    let score = if !pressed_enter {
        0
    } else {
        let diff = circular_diff(counter, target);
        calculate_score(diff, strength, miss)
    };

    assert_eq!(score, 90);
    assert_eq!(
        objective_score(Objective::Number(target), None, pressed_enter, counter, miss, strength),
        Some(90)
    );
}

#[test]
fn readme_example_turn_scores() {
    // Objectives [50, 82, 74, 33, 95] of the README's sample game.
    let plays = [(50, 36, 1), (82, 80, 0), (74, 70, 0), (33, 43, 1), (95, 90, 1)];
    let expected = [45, 130, 130, 55, 65];
    for (k, &(target, counter, miss)) in plays.iter().enumerate() {
        assert_eq!(
            objective_score(Objective::Number(target), None, true, counter, miss, 50),
            Some(expected[k])
        );
    }
}

#[test]
fn objective_score_refuses_overflowing_strength() {
    assert_eq!(objective_score(Objective::Number(10), None, true, 10, 0, i32::MAX), None);
    // Nothing is computed when the press does not hit.
    assert_eq!(objective_score(Objective::Number(10), None, false, 10, 0, i32::MAX), Some(0));
    assert_eq!(objective_score(Objective::Letter('a', 10), Some('b'), false, 10, 0, i32::MAX), Some(0));
}

#[test]
fn objective_score_in_letter_mode_ignores_enter() {
    assert_eq!(objective_score(Objective::Letter('q', 40), None, true, 40, 0, 50), Some(0));
}

#[test]
fn tick_advances_and_wraps() {
    assert_eq!(tick(0, 0), (1, 0));
    assert_eq!(tick(98, 0), (99, 0));
    assert_eq!(tick(99, 0), (0, 1));
    assert_eq!(tick(99, 3), (0, 4));
    assert_eq!(tick(99, i32::MAX), (0, i32::MIN));
}

#[test]
fn a_hundred_ticks_make_one_full_loop() {
    let mut state = (0, 0);
    for _ in 0..100 {
        state = tick(state.0, state.1);
        assert!((0..=99).contains(&state.0));
    }
    assert_eq!(state, (0, 1));
}

#[test]
fn keys_in_number_mode() {
    let obj = Objective::Number(10);
    assert_eq!(
        decide_key(obj, true, KeyInput::Enter),
        KeyDecision::Stop { pressed_char: None, pressed_enter: true }
    );
    assert_eq!(
        decide_key(obj, true, KeyInput::Other),
        KeyDecision::Stop { pressed_char: None, pressed_enter: false }
    );
    assert_eq!(
        decide_key(obj, true, KeyInput::Char('x')),
        KeyDecision::Stop { pressed_char: Some('x'), pressed_enter: false }
    );
    assert_eq!(decide_key(obj, false, KeyInput::Enter), KeyDecision::Wait);
}

#[test]
fn keys_in_letter_mode() {
    let obj = Objective::Letter('k', 10);
    assert_eq!(decide_key(obj, true, KeyInput::Enter), KeyDecision::Wait);
    assert_eq!(decide_key(obj, true, KeyInput::Other), KeyDecision::Wait);
    assert_eq!(
        decide_key(obj, true, KeyInput::Char('k')),
        KeyDecision::Stop { pressed_char: Some('k'), pressed_enter: false }
    );
    assert_eq!(decide_key(obj, false, KeyInput::Char('k')), KeyDecision::Wait);
}
