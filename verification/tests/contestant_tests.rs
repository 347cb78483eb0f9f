use matchmaker::contestant::ContestantPair;
use matchmaker::contestant::Player;

#[test]
fn test_player_equal() {
    assert_eq!(Player::new(1), Player::new(1));
    assert_ne!(Player::new(1), Player::new(100));
}

#[test]
fn test_clone() {
    let player = Player { id: 1, name: String::from("Janina") };
    let cloned = player.clone();

    assert_eq!(cloned.name, player.name);
    assert_eq!(cloned.id, player.id);
}

#[test]
fn test_pair_equal() {
    let p1 = Player::new(1);
    let p2 = Player::new(2);
    let matched = ContestantPair::new(p1, p2);

    assert_eq!(ContestantPair::new(Player::new(1), Player::new(2)), matched);
    assert_eq!(ContestantPair::new(Player::new(2), Player::new(1)), matched);
    assert_ne!(ContestantPair::new(Player::new(3), Player::new(1)), matched);
}

#[test]
fn test_pretty_players_and_pairs() {
    let p0 = Player::new(0);
    let p1 = Player::new(1);
    let listed = vec![&p0, &p1];
    assert_eq!(
        matchmaker::contestant::Players(&listed).pretty_string(),
        "Contestant 0 (), \nContestant 1 (), \n"
    );
    let pairs = vec![ContestantPair::new(p0.clone(), p1.clone())];
    assert_eq!(
        matchmaker::contestant::ContestantPairs(&pairs).pretty_string(),
        "Contestant 0 (), Contestant 1 ()\n"
    );
}
