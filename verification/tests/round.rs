use duel_game::args::Args;
use duel_game::player::Player;
use duel_game::round::{
    active_players, apply_poison_choice, compute_turn_average, conclude_round, final_ranking,
    first_alive, game_continues, resolve_round, settle_poison_choice, turn_score,
    unanimous_choices, RoundOutcome,
};

fn make_player(name: &str) -> Player {
    Player::new(name.to_string(), 50, 50, 50)
}

// --- compute_turn_average ---

#[test]
fn verifie_calculer_moyenne_tour_exact() {
    assert_eq!(compute_turn_average(100, 2), 50);
}

#[test]
fn verifie_calculer_moyenne_tour_ceiling() {
    assert_eq!(compute_turn_average(85, 3), 29);
}

#[test]
fn verifie_calculer_moyenne_tour_spec_example() {
    assert_eq!(compute_turn_average(425, 5), 85);
}

#[test]
fn verifie_calculer_moyenne_tour_zero_objectif() {
    assert_eq!(compute_turn_average(100, 0), 0);
}

#[test]
fn average_of_negative_totals_rounds_up() {
    assert_eq!(compute_turn_average(-7, 2), -3);
    assert_eq!(compute_turn_average(-6, 2), -3);
    assert_eq!(compute_turn_average(-1, 5), 0);
    assert_eq!(compute_turn_average(i32::MIN, 1), i32::MIN);
    assert_eq!(compute_turn_average(i32::MAX, 1), i32::MAX);
    assert_eq!(compute_turn_average(i32::MAX, 2), 1073741824);
    assert_eq!(compute_turn_average(1, usize::MAX), 1);
    assert_eq!(compute_turn_average(-1, usize::MAX), 0);
}

#[test]
fn average_is_the_least_integer_reaching_the_total() {
    for total in -50i32..=50 {
        for count in 1usize..=7 {
            let avg = compute_turn_average(total, count) as i64;
            let c = count as i64;
            assert!(avg * c >= total as i64);
            assert!((avg - 1) * c < total as i64);
        }
    }
}

// --- apply_poison_choice ---

#[test]
fn verifie_appliquer_poison_speed() {
    let mut loser = make_player("Loser");
    loser.speed = 50;
    apply_poison_choice(&mut loser, 1);
    assert_eq!(loser.speed, 45);
}

#[test]
fn verifie_appliquer_poison_speed_floor() {
    let mut loser = make_player("Loser");
    loser.speed = 7;
    apply_poison_choice(&mut loser, 1);
    assert_eq!(loser.speed, 5);
}

#[test]
fn verifie_appliquer_poison_speed_already_at_floor() {
    let mut loser = make_player("Loser");
    loser.speed = 5;
    apply_poison_choice(&mut loser, 1);
    assert_eq!(loser.speed, 5);
}

#[test]
fn verifie_appliquer_poison_strength() {
    let mut loser = make_player("Loser");
    loser.strength = 50;
    apply_poison_choice(&mut loser, 2);
    assert_eq!(loser.strength, 45);
}

#[test]
fn verifie_appliquer_poison_strength_floor() {
    let mut loser = make_player("Loser");
    loser.strength = 3;
    apply_poison_choice(&mut loser, 2);
    assert_eq!(loser.strength, 0);
}

#[test]
fn verifie_appliquer_poison_strength_already_zero() {
    let mut loser = make_player("Loser");
    loser.strength = 0;
    apply_poison_choice(&mut loser, 2);
    assert_eq!(loser.strength, 0);
}

#[test]
fn verifie_appliquer_poison_invalid_choice_no_change() {
    let mut loser = make_player("Loser");
    let speed_before = loser.speed;
    let strength_before = loser.strength;
    apply_poison_choice(&mut loser, 9);
    assert_eq!(loser.speed, speed_before);
    assert_eq!(loser.strength, strength_before);
}

#[test]
fn poison_keeps_vitality_and_the_other_stat() {
    let mut p = make_player("P");
    p.vitality = 12;
    apply_poison_choice(&mut p, 1);
    assert_eq!((p.vitality, p.speed, p.strength), (12, 45, 50));
    apply_poison_choice(&mut p, 2);
    assert_eq!((p.vitality, p.speed, p.strength), (12, 45, 45));
}

#[test]
fn speed_poison_below_the_floor_raises_to_the_floor() {
    let mut p = make_player("P");
    p.speed = 3;
    apply_poison_choice(&mut p, 1);
    assert_eq!(p.speed, 5);
    p.strength = -3;
    apply_poison_choice(&mut p, 2);
    assert_eq!(p.strength, 0);
}

// --- round resolution ---

#[test]
fn clear_round() {
    let outcome = resolve_round(&vec![0, 1], &vec![85, 60]).unwrap();
    assert_eq!(outcome, RoundOutcome::Clear { winner: 0, loser: 1, damage: 25 });
    let outcome = resolve_round(&vec![0, 1], &vec![60, 85]).unwrap();
    assert_eq!(outcome, RoundOutcome::Clear { winner: 1, loser: 0, damage: 25 });
}

#[test]
fn draw_round() {
    assert_eq!(resolve_round(&vec![0, 1, 2], &vec![70, 70, 70]).unwrap(), RoundOutcome::Draw);
    assert_eq!(resolve_round(&vec![3], &vec![10]).unwrap(), RoundOutcome::Draw);
}

#[test]
fn shared_lead_round() {
    let outcome = resolve_round(&vec![0, 1, 2, 3], &vec![90, 40, 90, 40]).unwrap();
    assert_eq!(outcome, RoundOutcome::SharedLead { winners: vec![0, 2], loser: 3, damage: 50 });
}

#[test]
fn shared_last_round() {
    let outcome = resolve_round(&vec![0, 2, 3], &vec![20, 90, 20]).unwrap();
    assert_eq!(outcome, RoundOutcome::SharedLast { winner: 2, losers: vec![3, 0], damage: 70 });
}

#[test]
fn unrankable_scores() {
    assert_eq!(resolve_round(&vec![], &vec![]), None);
    assert_eq!(resolve_round(&vec![0, 1], &vec![i32::MIN, 3]), None);
    assert_eq!(resolve_round(&vec![0, 1], &vec![i32::MAX, -5]), None);
    assert_eq!(resolve_round(&vec![0], &vec![1, 2]), None);
}

#[test]
fn clear_round_strikes_the_loser_only() {
    let mut players = vec![make_player("A"), make_player("B")];
    let outcome = resolve_round(&vec![0, 1], &vec![85, 60]).unwrap();
    let (continues, eliminated) = conclude_round(&mut players, &outcome, 1).unwrap();
    assert!(continues);
    assert!(eliminated.is_empty());
    assert_eq!((players[0].vitality, players[0].speed, players[0].strength), (50, 50, 50));
    assert_eq!((players[1].vitality, players[1].speed, players[1].strength), (25, 45, 50));
}

#[test]
fn clear_round_can_end_the_game() {
    let mut players = vec![make_player("A"), make_player("B")];
    players[1].vitality = 10;
    let outcome = resolve_round(&vec![0, 1], &vec![85, 60]).unwrap();
    let (continues, eliminated) = conclude_round(&mut players, &outcome, 2).unwrap();
    assert!(!continues);
    assert_eq!(eliminated, vec![1]);
    assert_eq!(players[1].vitality, -15);
    assert_eq!(players[1].strength, 45);
    assert_eq!(first_alive(&players), Some(0));
}

#[test]
fn shared_lead_reports_the_loser_once() {
    let mut players = vec![make_player("A"), make_player("B"), make_player("C")];
    players[1].vitality = 5;
    let outcome = resolve_round(&vec![0, 1, 2], &vec![80, 30, 80]).unwrap();
    let (continues, eliminated) = conclude_round(&mut players, &outcome, 1).unwrap();
    assert!(!continues);
    assert_eq!(eliminated, vec![1]);
    assert_eq!(players[1].vitality, -45);
    assert_eq!(players[1].speed, 45);
}

#[test]
fn shared_last_strikes_every_loser() {
    let mut players = vec![make_player("A"), make_player("B"), make_player("C")];
    players[0].vitality = 10;
    let outcome = resolve_round(&vec![0, 1, 2], &vec![40, 90, 40]).unwrap();
    let (continues, eliminated) = conclude_round(&mut players, &outcome, 2).unwrap();
    assert!(!continues);
    assert_eq!(eliminated, vec![2, 0]);
    assert_eq!((players[2].vitality, players[2].strength), (0, 45));
    assert_eq!((players[0].vitality, players[0].strength), (-40, 45));
    assert_eq!((players[1].vitality, players[1].strength), (50, 50));
}

#[test]
fn draw_changes_nobody() {
    let mut players = vec![make_player("A"), make_player("B")];
    let (continues, eliminated) = conclude_round(&mut players, &RoundOutcome::Draw, 1).unwrap();
    assert!(continues);
    assert!(eliminated.is_empty());
    assert_eq!(players[0].vitality, 50);
    assert_eq!(players[1].vitality, 50);
}

#[test]
fn outcome_that_does_not_apply() {
    let mut players = vec![make_player("A"), make_player("B")];
    let bad = RoundOutcome::Clear { winner: 0, loser: 5, damage: 3 };
    assert_eq!(conclude_round(&mut players, &bad, 1), None);
    players[1].vitality = i32::MIN + 1;
    let overflow = RoundOutcome::Clear { winner: 0, loser: 1, damage: 3 };
    assert_eq!(conclude_round(&mut players, &overflow, 1), None);
    let twice = RoundOutcome::SharedLast { winner: 0, losers: vec![1, 1], damage: 1 };
    assert_eq!(conclude_round(&mut players, &twice, 1), None);
    assert_eq!(players[1].vitality, i32::MIN + 1);
}

#[test]
fn active_players_are_those_with_vitality() {
    let mut players = vec![make_player("A"), make_player("B"), make_player("C")];
    players[1].vitality = 0;
    assert_eq!(active_players(&players), vec![0, 2]);
    assert!(game_continues(&players));
    players[2].vitality = -3;
    assert!(!game_continues(&players));
    assert_eq!(first_alive(&players), Some(0));
    players[0].vitality = 0;
    assert_eq!(active_players(&players), Vec::<usize>::new());
    assert_eq!(first_alive(&players), None);
}

#[test]
fn shared_lead_poison() {
    assert_eq!(settle_poison_choice(&vec![2, 2, 2], 7), 2);
    assert_eq!(settle_poison_choice(&vec![1], 7), 1);
    assert_eq!(settle_poison_choice(&vec![1, 2], 4), 1);
    assert_eq!(settle_poison_choice(&vec![1, 2], 5), 2);
}

#[test]
fn ranking_lists_winner_then_last_eliminated_first() {
    let mut players = vec![make_player("A"), make_player("B"), make_player("C")];
    players[0].vitality = -1;
    players[2].vitality = 0;
    assert_eq!(final_ranking(&players, &vec![2, 0]), Some(vec![1, 0, 2]));
    players[1].vitality = 0;
    assert_eq!(final_ranking(&players, &vec![2, 0, 1]), None);
}

#[test]
fn settings_give_the_players() {
    let args = Args {
        name1: "Amaury".to_string(),
        name2: "Julien".to_string(),
        name3: None,
        name4: Some("Player4".to_string()),
        vitality: 50,
        objectifs: 5,
        speed: 50,
        strength: 40,
    };
    let names = args.player_names().unwrap();
    assert_eq!(names, vec!["Amaury".to_string(), "Julien".to_string(), "Player4".to_string()]);
    let players = args.new_players(&names);
    assert_eq!(players.len(), 3);
    assert_eq!(players[2].name, "Player4");
    assert_eq!((players[2].vitality, players[2].speed, players[2].strength), (50, 50, 40));
}

#[test]
fn an_elimination_ends_the_game_even_with_more_players_left() {
    let mut players = vec![make_player("A"), make_player("B"), make_player("C")];
    players[2].vitality = 20;
    let outcome = resolve_round(&vec![0, 1, 2], &vec![90, 60, 50]).unwrap();
    assert_eq!(outcome, RoundOutcome::Clear { winner: 0, loser: 2, damage: 40 });
    let (continues, eliminated) = conclude_round(&mut players, &outcome, 1).unwrap();
    assert!(!continues);
    assert_eq!(eliminated, vec![2]);
    assert_eq!(final_ranking(&players, &eliminated), Some(vec![0, 2]));
}

#[test]
fn a_round_without_elimination_goes_on() {
    let mut players = vec![make_player("A"), make_player("B"), make_player("C")];
    let outcome = resolve_round(&vec![0, 1, 2], &vec![90, 60, 50]).unwrap();
    let (continues, eliminated) = conclude_round(&mut players, &outcome, 2).unwrap();
    assert!(continues);
    assert!(eliminated.is_empty());
    // Nobody gained; the winner and the middle player are untouched.
    assert_eq!((players[0].vitality, players[0].strength), (50, 50));
    assert_eq!((players[1].vitality, players[1].strength), (50, 50));
    assert_eq!((players[2].vitality, players[2].strength), (10, 45));
}

#[test]
fn turn_score_adds_up_then_rounds_up() {
    assert_eq!(turn_score(&vec![45, 130, 130, 55, 65]), Some(85));
    assert_eq!(turn_score(&vec![10, 10, 11]), Some(11));
    assert_eq!(turn_score(&vec![]), Some(0));
    assert_eq!(turn_score(&vec![-7]), Some(-7));
    assert_eq!(turn_score(&vec![i32::MAX, 1]), None);
    assert_eq!(turn_score(&vec![i32::MAX, 1, -5]), None);
    assert_eq!(turn_score(&vec![i32::MAX, -1, 1]), Some(715827883));
}

#[test]
fn unanimity_of_choices() {
    assert!(unanimous_choices(&vec![]));
    assert!(unanimous_choices(&vec![2, 2]));
    assert!(!unanimous_choices(&vec![2, 1, 2]));
}
