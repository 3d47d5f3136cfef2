use duel_game::input::{is_offered_choice, parse_choice_1_or_2, wants_replay};

#[test]
fn verifie_analyse_choix_valide() {
    assert_eq!(parse_choice_1_or_2("1"), 1);
    assert_eq!(parse_choice_1_or_2("2"), 2);
}

#[test]
fn verifie_analyse_choix_avec_espaces() {
    assert_eq!(parse_choice_1_or_2("1\n"), 1);
    assert_eq!(parse_choice_1_or_2("  2  "), 2);
}

#[test]
fn verifie_analyse_choix_invalide_defaut_a_1() {
    assert_eq!(parse_choice_1_or_2("3"), 1);
    assert_eq!(parse_choice_1_or_2(""), 1);
    assert_eq!(parse_choice_1_or_2("abc"), 1);
    assert_eq!(parse_choice_1_or_2("0"), 1);
}

#[test]
fn choice_ignores_unicode_white_space() {
    assert_eq!(parse_choice_1_or_2("\u{3000}2\u{a0}"), 2);
    assert_eq!(parse_choice_1_or_2("\t\r\n2\u{2028}"), 2);
    assert_eq!(parse_choice_1_or_2("2 2"), 1);
    assert_eq!(parse_choice_1_or_2("22"), 1);
    assert_eq!(parse_choice_1_or_2("２"), 1);
}

#[test]
fn offered_choices() {
    assert!(is_offered_choice(" 1\n"));
    assert!(is_offered_choice("2"));
    assert!(!is_offered_choice("3"));
    assert!(!is_offered_choice(""));
    assert!(!is_offered_choice("1 2"));
}

#[test]
fn replay_answers() {
    assert!(wants_replay("y\n"));
    assert!(wants_replay("  Y "));
    assert!(!wants_replay("n\n"));
    assert!(!wants_replay("yes"));
    assert!(!wants_replay(""));
}
