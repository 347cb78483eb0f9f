use matchmaker::contestant::ContestantPair;
use matchmaker::contestant::Player;
use matchmaker::gamemaster::GameMaster;
use matchmaker::gamestrategy::Feedback;
use matchmaker::utils::get_matches;

#[test]
fn test_game_initialized() {
    let game = GameMaster::initialize_game(12, 10);
    assert_eq!(game.matches.len(), 6);
    assert_eq!(game.contestants().len(), 12);
}

#[test]
fn test_get_contestants() {
    let num_players = 12;
    let game = GameMaster::initialize_game(num_players, 10);
    // The shuffled contestant list is not the order the pairs were made in.
    let randomized: Vec<&Player> = game.contestants();
    let mut num_equal = 0;
    for i in 0..randomized.len() {
        if randomized[i].id as usize == i {
            num_equal += 1;
        }
    }
    assert_ne!(num_equal, randomized.len());

    // The matched pairs themselves stay in order after shuffles.
    for i in 0..game.matches.len() {
        assert_eq!(game.matches[i].get_a().id as usize, 2 * i);
        assert_eq!(game.matches[i].get_b().id as usize, 2 * i + 1);
    }
}

#[test]
fn test_is_perfect_match() {
    let p1 = Player::new(1);
    let p2 = Player::new(2);
    let matched = ContestantPair::new(p1, p2);
    let game_master =
        GameMaster { iterations: 0, matches: vec![matched], num_matched: 0, max_iterations: 10 };

    assert_eq!(game_master.is_match(&ContestantPair::new(Player::new(1), Player::new(2))), true);
    assert_eq!(game_master.is_match(&ContestantPair::new(Player::new(2), Player::new(1))), true);
    assert_eq!(game_master.is_match(&ContestantPair::new(Player::new(3), Player::new(1))), false);
}

#[test]
fn test_in_progress_found_matches() {
    let mut game = GameMaster::initialize_game(12, 50);
    assert_eq!(game.in_progress(), true);
    for pair in game.matches.clone().iter() {
        assert_eq!(game.truth_booth(pair.clone()), Feedback::Correct(pair.clone()));
    }
    assert_eq!(game.in_progress(), false);
}

#[test]
fn test_in_progress_exceeds_limit() {
    let mut game = GameMaster::initialize_game(12, 5);
    assert_eq!(game.in_progress(), true);

    let cloned = game.matches.to_owned();
    for _i in 0..6 {
        assert_eq!(
            game.truth_booth(cloned.get(0).unwrap().clone()),
            Feedback::Correct(cloned.get(0).unwrap().clone())
        );
    }

    assert_eq!(game.in_progress(), false);
}

#[test]
fn test_truth_booth() {
    let mut game = GameMaster::initialize_game(12, 5);
    assert_eq!(game.iterations, 0);

    let wrong_match = get_matches(&game.matches, 0, 1).pop().unwrap();

    assert_eq!(game.truth_booth(wrong_match.clone()), Feedback::Wrong(wrong_match));
    assert_eq!(game.iterations, 1);
    assert_eq!(game.num_matched, 0);

    let right_match = game.matches.get(0).unwrap().clone();
    assert_eq!(game.truth_booth(right_match.clone()), Feedback::Correct(right_match));
    assert_eq!(game.iterations, 2);
    assert_eq!(game.num_matched, 1);
}

// This also serves as a test for get_matches().
#[test]
fn test_ceremony() {
    let game = GameMaster::initialize_game(12, 5);
    let cloned_matches = game.matches.to_owned();

    // No correct guesses.
    let random_pairs: Vec<ContestantPair> = get_matches(&cloned_matches, 0, 6);
    assert_eq!(game.ceremony(&random_pairs), 0);

    // Four scrambled pairs, two of the correct ones kept.
    let random_pairs: Vec<ContestantPair> = get_matches(&cloned_matches, 2, 4);
    assert_eq!(game.ceremony(&random_pairs), 2);
}

#[test]
fn test_contestants_complete() {
    // Shuffling hands back exactly the contestants of the game, every id once.
    let game = GameMaster::initialize_game(12, 5);
    let mut ids: Vec<i32> = game.contestants().iter().map(|p| p.id).collect();
    ids.sort();
    let expected: Vec<i32> = (0..12).collect();
    assert_eq!(ids, expected);
}
