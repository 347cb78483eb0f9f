use matchmaker::contestant::ContestantPair;
use matchmaker::contestant::Player;
use matchmaker::possibility::PossibilityMap;
use matchmaker::roundmanager::RoundManager;
use matchmaker::utils::contestants_to_pairs;
use matchmaker::utils::gen_contestants;

#[test]
fn test_most_eff_round() {
    let c = gen_contestants(10);
    let mut round_manager = RoundManager::new();

    // One correct out of five: a twenty percent chance per live guess.
    round_manager.add_round(contestants_to_pairs(&c), 1);
    assert_eq!(round_manager.most_eff(), round_manager.latest());

    // Three correct out of five beats it.
    round_manager.add_round(contestants_to_pairs(&c), 3);
    let most_eff = round_manager.latest().cloned().unwrap();

    // Two correct out of five does not.
    round_manager.add_round(contestants_to_pairs(&c), 2);

    assert_eq!(round_manager.most_eff().unwrap(), &most_eff);
}

#[test]
fn test_should_use_round() {
    let c = gen_contestants(4);
    let mut round_manager = RoundManager::new();
    // Every contestant starts with the three others as candidates.
    let mut possibilities = PossibilityMap::initialize(&c);

    // The round has a one-in-two chance per guess; blind elimination only
    // one in three.
    round_manager.add_round(contestants_to_pairs(&c), 1);
    assert_eq!(round_manager.should_use_round(&possibilities), true);

    // Narrow c[0] down to a single candidate: blind picking is now certain.
    possibilities.exclude_pair(&ContestantPair::new(Player::new(0), Player::new(2)));
    possibilities.exclude_pair(&ContestantPair::new(Player::new(0), Player::new(3)));
    assert_eq!(round_manager.should_use_round(&possibilities), false);
}

#[test]
fn test_should_use_round_needs_strict() {
    // An exactly equal chance does not favour the round: one in two from the
    // round against a most-constrained contestant with two candidates.
    let c = gen_contestants(4);
    let mut round_manager = RoundManager::new();
    let mut possibilities = PossibilityMap::initialize(&c);
    possibilities.exclude_pair(&ContestantPair::new(Player::new(0), Player::new(2)));

    round_manager.add_round(contestants_to_pairs(&c), 1);
    assert_eq!(round_manager.should_use_round(&possibilities), false);
}

#[test]
fn test_prune_rounds() {
    let c = gen_contestants(10);
    let mut round_manager = RoundManager::new();
    round_manager.add_round(contestants_to_pairs(&c), 0);
    round_manager.add_round(contestants_to_pairs(&c), 0);
    round_manager.add_round(contestants_to_pairs(&c), 0);
    assert_eq!(round_manager.rounds.len(), 3);

    assert_eq!(round_manager.prune_rounds(), 3);
    assert_eq!(round_manager.rounds.len(), 0);

    let guess = contestants_to_pairs(&c);
    round_manager.add_round(guess.clone(), 0);
    let latest = round_manager.latest_mut().unwrap();
    latest.eliminate_guesses(&guess);
    assert_eq!(round_manager.prune_rounds(), 1);
    assert_eq!(round_manager.rounds.len(), 0);
}

#[test]
fn test_confirm_match_updates_rounds() {
    // Confirming a pair strikes both contestants from every round's live
    // guesses and lowers every correct count by one, never below zero.
    let c = gen_contestants(12);
    let pairs = contestants_to_pairs(&c);
    let mut round_manager = RoundManager::new();
    round_manager.add_round(pairs.clone(), 2);
    round_manager.add_round(pairs.clone(), 0);

    round_manager.perfect_match_found(&pairs[0]);

    assert_eq!(round_manager.rounds[0].num_correct, 1);
    assert_eq!(round_manager.rounds[1].num_correct, 0);
    assert_eq!(round_manager.rounds[0].guesses_left(), 5);
    assert_eq!(round_manager.rounds[1].guesses_left(), 5);
    for r in round_manager.rounds.iter() {
        for g in r.pick_from_round(r.guesses_left()).unwrap() {
            assert!(!g.has_player(&c[0]));
            assert!(!g.has_player(&c[1]));
        }
    }
}

#[test]
fn test_best_guess() {
    let c = gen_contestants(4);
    let mut round_manager = RoundManager::new();
    assert_eq!(round_manager.best_guess(), None);
    assert_eq!(round_manager.times_round_used, 0);

    let pairs = contestants_to_pairs(&c);
    round_manager.add_round(pairs.clone(), 1);
    let picked = round_manager.best_guess().unwrap();
    assert!(pairs.contains(&picked));
    assert_eq!(round_manager.times_round_used, 1);
}

#[test]
fn test_pretty_string_rounds() {
    let c = gen_contestants(2);
    let mut round_manager = RoundManager::new();
    round_manager.add_round(contestants_to_pairs(&c), 1);
    assert_eq!(
        round_manager.pretty_string(),
        "saved round #1 -- \nContestant 0 (), Contestant 1 ()\n\n"
    );
}
