use duel_game::player::Player;

#[test]
fn verifie_joueur_new_fields() {
    let p = Player::new("Alice".to_string(), 100, 40, 60);
    assert_eq!(p.name, "Alice");
    assert_eq!(p.vitality, 100);
    assert_eq!(p.speed, 40);
    assert_eq!(p.strength, 60);
}

#[test]
fn verifie_joueur_clone_independence() {
    let p1 = Player::new("Bob".to_string(), 50, 50, 50);
    let mut p2 = p1.clone();
    p2.vitality -= 10;
    assert_eq!(p1.vitality, 50);
    assert_eq!(p2.vitality, 40);
}

#[test]
fn verifie_joueur_vitality_can_go_negative() {
    let mut p = Player::new("Test".to_string(), 5, 50, 50);
    p.vitality -= 10;
    assert_eq!(p.vitality, -5);
}

#[test]
fn verifie_joueur_name_owned() {
    let name = String::from("Charlie");
    let p = Player::new(name.clone(), 50, 50, 50);
    assert_eq!(p.name, name);
}
