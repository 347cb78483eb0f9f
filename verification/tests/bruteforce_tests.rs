use std::collections::HashSet;

use matchmaker::bruteforce::BruteForce;
use matchmaker::bruteforce::PairPlayerResult;
use matchmaker::contestant::ContestantPair;
use matchmaker::contestant::Player;
use matchmaker::gamestrategy::Feedback;
use matchmaker::gamestrategy::SolverError;
use matchmaker::utils::contestants_to_pairs;
use matchmaker::utils::gen_contestants;
use matchmaker::utils::get_matches;

fn candidate_ids_of(strategy: &BruteForce, player: &Player) -> Vec<i32> {
    strategy
        .possibilities
        .candidates_of(player)
        .map(|v| v.iter().map(|p| p.id).collect())
        .unwrap_or_default()
}

#[test]
fn test_initialization() {
    let contestants = gen_contestants(12);
    let strategy = BruteForce::initialize(contestants.iter().collect());

    let ids: HashSet<i32> = strategy.contestants.iter().map(|p| p.id).collect();
    let expected: HashSet<i32> = contestants.iter().map(|p| p.id).collect();
    assert_eq!(ids, expected);

    // The right number of contestants is keyed, with the right number of
    // candidates remaining in total.
    let n = contestants.len();
    assert_eq!(strategy.possibilities.num_keys(), n);

    // Each contestant's candidate set has the right length and never holds
    // the contestant themselves.
    for player in contestants.iter() {
        let cands = candidate_ids_of(&strategy, player);
        assert_eq!(cands.len(), n - 1);
        assert_eq!(cands.contains(&player.id), false);
    }

    assert_eq!(strategy.poss_left(), (n * n - n) / 2);
}

#[test]
fn test_already_guessed() {
    let c = gen_contestants(12);
    let mut strategy = BruteForce::initialize(c.iter().collect());

    assert_eq!(strategy.already_guessed(&c[0], &c[1]), false);

    // A pair is guessed once it is struck from both candidate sets.
    strategy.remove_guess(&ContestantPair::new(c[0].clone(), c[1].clone())).unwrap();

    assert_eq!(strategy.already_guessed(&c[0], &c[1]), true);

    // It is also already guessed once either player stops being a key.
    assert_eq!(strategy.already_guessed(&c[2], &c[3]), false);
    strategy.add_perfect_match(ContestantPair::new(c[2].clone(), c[3].clone())).unwrap();

    assert_eq!(strategy.already_guessed(&c[2], &c[3]), true);
}

#[test]
fn test_remove_guess() {
    let c = gen_contestants(12);
    let mut strategy = BruteForce::initialize(c.iter().collect());

    assert_eq!(strategy.already_guessed(&c[0], &c[1]), false);
    strategy.remove_guess(&ContestantPair::new(c[0].clone(), c[1].clone())).unwrap();
    assert_eq!(strategy.already_guessed(&c[0], &c[1]), true);
}

#[test]
fn test_pair_playerd_ok() {
    let c = gen_contestants(4);
    let strategy = BruteForce::initialize(c.iter().collect());

    // All possible pairs are generated: with one pair taken, the only
    // remaining partner must be picked.
    let valid_pairs = [
        (
            ContestantPair::new(c[0].clone(), c[1].clone()),
            ContestantPair::new(c[2].clone(), c[3].clone()),
        ),
        (
            ContestantPair::new(c[0].clone(), c[2].clone()),
            ContestantPair::new(c[1].clone(), c[3].clone()),
        ),
        (
            ContestantPair::new(c[0].clone(), c[3].clone()),
            ContestantPair::new(c[1].clone(), c[2].clone()),
        ),
    ];

    for (already_taken_pair, expected_pair) in valid_pairs.iter() {
        let off_limits: Vec<Player> =
            vec![already_taken_pair.get_a().clone(), already_taken_pair.get_b().clone()];
        let paired_with = strategy.pair_player(&expected_pair.get_a(), &off_limits);

        assert_eq!(PairPlayerResult::Paired(expected_pair.clone()), paired_with);
    }
}

#[test]
fn test_pair_player_contradiction() {
    let c = gen_contestants(4);
    let mut strategy = BruteForce::initialize(c.iter().collect());

    // Let c[2] keep only c[0] as a candidate.
    strategy.remove_guess(&ContestantPair::new(c[2].clone(), c[1].clone())).unwrap();
    strategy.remove_guess(&ContestantPair::new(c[2].clone(), c[3].clone())).unwrap();

    // The only workable combination pairs c[2] with c[0]; making c[0] off
    // limits leaves nobody for c[2].
    let off_limits = vec![c[0].clone(), c[3].clone()];
    assert_eq!(PairPlayerResult::Contradiction, strategy.pair_player(&c[2], &off_limits));

    let off_limits = vec![c[1].clone(), c[3].clone()];
    let expected_pair = ContestantPair::new(c[2].clone(), c[0].clone());
    assert_eq!(PairPlayerResult::Paired(expected_pair), strategy.pair_player(&c[2], &off_limits));
}

#[test]
fn test_highest_prob_player() {
    let c = gen_contestants(4);
    let mut strategy = BruteForce::initialize(c.iter().collect());

    // Narrow c[2] down to a single candidate.
    strategy.remove_guess(&ContestantPair::new(c[2].clone(), c[1].clone())).unwrap();
    strategy.remove_guess(&ContestantPair::new(c[2].clone(), c[3].clone())).unwrap();

    assert_eq!(strategy.highest_prob_player(&Vec::new()).unwrap(), c[2].clone());
}

#[test]
fn test_get_no_contradiction_ceremony() {
    let c = gen_contestants(4);
    let mut strategy = BruteForce::initialize(c.iter().collect());

    strategy.remove_guess(&ContestantPair::new(c[2].clone(), c[1].clone())).unwrap();
    strategy.remove_guess(&ContestantPair::new(c[2].clone(), c[3].clone())).unwrap();

    let off_limits = vec![c[0].clone(), c[3].clone()];
    assert_eq!(PairPlayerResult::Contradiction, strategy.pair_player(&c[2], &off_limits));

    // The search starts from the most constrained contestant, so the forced
    // pair comes first.
    let expected_pair = ContestantPair::new(c[2].clone(), c[0].clone());
    assert_eq!(&expected_pair, strategy.possible_pairing().unwrap().get(0).unwrap());
}

#[test]
fn test_ceremony_feedback() {
    let contestants = gen_contestants(12);
    let perfect_matches = contestants_to_pairs(&contestants);

    let mut strategy = BruteForce::initialize(contestants.iter().collect());
    let guess = get_matches(&perfect_matches, 2, 4);

    // A round is created with six guesses left.
    strategy.ceremony_feedback(2, guess.clone()).unwrap();
    let latest_round = strategy.round_manager.latest().unwrap();

    assert_eq!(latest_round.guesses_left(), 6);

    // With one match confirmed, a count of one means no unconfirmed guess was
    // right: everything else is ruled out.
    strategy.add_perfect_match(perfect_matches.get(0).unwrap().clone()).unwrap();

    let guess2 = get_matches(&perfect_matches, 0, 6);
    strategy.ceremony_feedback(1, guess2.clone()).unwrap();

    for g in guess2.iter() {
        assert_eq!(strategy.already_guessed(g.get_a(), g.get_b()), true);
    }
}

#[test]
fn test_handle_correct_match() {
    let contestants = gen_contestants(12);
    let mut strategy = BruteForce::initialize(contestants.iter().collect());

    let perfect_matches = contestants_to_pairs(&contestants);

    let pm_match = perfect_matches.get(0).unwrap();
    assert_eq!(strategy.already_guessed(pm_match.get_a(), pm_match.get_b()), false);

    // Rounds that contain the perfect match.
    strategy.add_round(get_matches(&perfect_matches, 2, 4), 2);
    strategy.add_round(get_matches(&perfect_matches, 1, 5), 1);

    strategy.booth_feedback(Feedback::Correct(pm_match.clone())).unwrap();

    // The pair is not a possible guess anymore.
    assert_eq!(strategy.already_guessed(pm_match.get_a(), pm_match.get_b()), true);

    // The first round now gives a one-in-five chance of guessing right.
    assert_eq!(strategy.round_manager.rounds.get(0).unwrap().num_correct, 1);
    assert_eq!(strategy.round_manager.rounds.get(0).unwrap().guesses_left(), 5);
    // The round whose single credit was used up carries no information and
    // is pruned away.
    strategy.round_manager.prune_rounds();
    assert_eq!(strategy.round_manager.rounds.len(), 1);
}

#[test]
fn test_handle_incorrect_match() {
    let contestants = gen_contestants(12);
    let mut strategy = BruteForce::initialize(contestants.iter().collect());

    let matches = contestants_to_pairs(&contestants);
    let wrong_guess = matches.get(0).unwrap().clone();

    assert_eq!(strategy.already_guessed(wrong_guess.get_a(), wrong_guess.get_b()), false);

    strategy.add_round(matches.clone(), 2);
    strategy.add_round(matches.clone(), 1);

    // The truth booth denies the pair.
    strategy.booth_feedback(Feedback::Wrong(wrong_guess.clone())).unwrap();
    assert_eq!(strategy.already_guessed(wrong_guess.get_a(), wrong_guess.get_b()), true);

    // The round ratios change: two in five and one in five.
    assert_eq!(strategy.round_manager.rounds.get(0).unwrap().num_correct, 2);
    assert_eq!(strategy.round_manager.rounds.get(0).unwrap().guesses_left(), 5);
    assert_eq!(strategy.round_manager.rounds.get(1).unwrap().num_correct, 1);
    assert_eq!(strategy.round_manager.rounds.get(1).unwrap().guesses_left(), 5);
}

#[test]
fn test_get_ceremony_pairs() {
    // If there are no rounds in play yet, just pick randomly.

    // If there are are any rounds in play, take the most likely one reduce num possibilities by half
    // By including half of the remaining options in the next round
}

#[test]
fn test_exclude_pair_symmetric() {
    // Ruling a pair out works the same whichever way round it is written.
    let c = gen_contestants(6);
    let mut s1 = BruteForce::initialize(c.iter().collect());
    let mut s2 = BruteForce::initialize(c.iter().collect());

    s1.remove_guess(&ContestantPair::new(c[1].clone(), c[4].clone())).unwrap();
    s2.remove_guess(&ContestantPair::new(c[4].clone(), c[1].clone())).unwrap();

    for p in c.iter() {
        assert_eq!(candidate_ids_of(&s1, p), candidate_ids_of(&s2, p));
    }
    assert!(s1.already_guessed(&c[1], &c[4]));
    assert!(s1.already_guessed(&c[4], &c[1]));
}

#[test]
fn test_full_deduction_after_zero_count() {
    // Four contestants, secret pairing (0,1)(2,3). The ceremony guess
    // [(0,1),(2,3)] comes back with zero right, so both pairs are ruled out
    // and the only consistent pairings left are {(0,2),(1,3)} and
    // {(0,3),(1,2)}.
    let c = gen_contestants(4);
    let mut strategy = BruteForce::initialize(c.iter().collect());

    let guess = vec![
        ContestantPair::new(c[0].clone(), c[1].clone()),
        ContestantPair::new(c[2].clone(), c[3].clone()),
    ];
    strategy.ceremony_feedback(0, guess).unwrap();

    assert!(strategy.already_guessed(&c[0], &c[1]));
    assert!(strategy.already_guessed(&c[2], &c[3]));

    let pairing = strategy.possible_pairing().unwrap();
    assert_eq!(pairing.len(), 2);
    let option_one = vec![
        ContestantPair::new(c[0].clone(), c[2].clone()),
        ContestantPair::new(c[1].clone(), c[3].clone()),
    ];
    let option_two = vec![
        ContestantPair::new(c[0].clone(), c[3].clone()),
        ContestantPair::new(c[1].clone(), c[2].clone()),
    ];
    let matches_option = |option: &Vec<ContestantPair>| {
        (pairing[0] == option[0] && pairing[1] == option[1])
            || (pairing[0] == option[1] && pairing[1] == option[0])
    };
    assert!(matches_option(&option_one) || matches_option(&option_two));
    for p in pairing.iter() {
        assert!(!strategy.already_guessed(p.get_a(), p.get_b()));
    }
}

#[test]
fn test_confirmed_pair_leaves_candidates_and_rounds() {
    // After the booth confirms (0,1), both contestants disappear from every
    // other candidate set, and every saved round drops its guesses naming
    // either of them.
    let c = gen_contestants(4);
    let mut strategy = BruteForce::initialize(c.iter().collect());

    let guess = vec![
        ContestantPair::new(c[0].clone(), c[1].clone()),
        ContestantPair::new(c[2].clone(), c[3].clone()),
    ];
    strategy.ceremony_feedback(1, guess).unwrap();
    assert_eq!(strategy.round_manager.rounds[0].guesses_left(), 2);

    strategy.booth_feedback(Feedback::Correct(ContestantPair::new(c[0].clone(), c[1].clone())))
        .unwrap();

    // Confirmed contestants are no longer guessable pairs for anyone.
    assert!(strategy.already_guessed(&c[0], &c[1]));
    for other in [&c[2], &c[3]] {
        let cands = candidate_ids_of(&strategy, other);
        assert!(!cands.contains(&c[0].id));
        assert!(!cands.contains(&c[1].id));
    }
    // The round that guessed (0,1) loses that live guess.
    assert_eq!(strategy.round_manager.rounds[0].guesses_left(), 1);
}

#[test]
fn test_error_unknown_player() {
    let c = gen_contestants(4);
    let mut strategy = BruteForce::initialize(c.iter().collect());
    let stranger = ContestantPair::new(Player::new(98), Player::new(99));
    assert_eq!(
        strategy.booth_feedback(Feedback::Wrong(stranger)),
        Err(SolverError::UnknownPlayer)
    );
}

#[test]
fn test_error_player_resolved() {
    let c = gen_contestants(4);
    let mut strategy = BruteForce::initialize(c.iter().collect());
    let pair = ContestantPair::new(c[0].clone(), c[1].clone());
    strategy.booth_feedback(Feedback::Correct(pair.clone())).unwrap();
    assert_eq!(
        strategy.booth_feedback(Feedback::Correct(pair)),
        Err(SolverError::PlayerResolved)
    );
}

#[test]
fn test_error_feedback_mismatch() {
    let c = gen_contestants(4);
    let mut strategy = BruteForce::initialize(c.iter().collect());
    strategy.add_perfect_match(ContestantPair::new(c[0].clone(), c[1].clone())).unwrap();
    let guess = vec![ContestantPair::new(c[2].clone(), c[3].clone())];
    assert_eq!(strategy.ceremony_feedback(0, guess), Err(SolverError::FeedbackMismatch));
}

#[test]
fn test_error_unsatisfiable() {
    let c = gen_contestants(4);
    let mut strategy = BruteForce::initialize(c.iter().collect());
    strategy.remove_guess(&ContestantPair::new(c[0].clone(), c[1].clone())).unwrap();
    strategy.remove_guess(&ContestantPair::new(c[0].clone(), c[2].clone())).unwrap();
    strategy.remove_guess(&ContestantPair::new(c[0].clone(), c[3].clone())).unwrap();
    assert_eq!(strategy.possible_pairing(), Err(SolverError::Unsatisfiable));
}

#[test]
fn test_solves_small_game() {
    // Play a whole game against the oracle and find every match.
    let mut game = matchmaker::gamemaster::GameMaster::initialize_game(8, 100);
    let mut strategy = BruteForce::initialize(game.contestants());
    while game.in_progress() {
        let guess = strategy.ceremony_pairs().unwrap();
        let num_correct = game.ceremony(&guess);
        if !game.in_progress() {
            break;
        }
        strategy.ceremony_feedback(num_correct, guess).unwrap();
        let query = strategy.send_to_booth().unwrap();
        let feedback = game.truth_booth(query);
        strategy.booth_feedback(feedback).unwrap();
    }
    assert_eq!(strategy.right_matches.len(), 4);
    for pair in strategy.right_matches.iter() {
        assert!(game.is_match(pair));
    }
}
