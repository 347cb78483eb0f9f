use matchmaker::round::SavedRound;
use matchmaker::utils::contestants_to_pairs;
use matchmaker::utils::gen_contestants;
use matchmaker::utils::get_matches;

#[test]
fn test_eliminate_pair() {
    let c = gen_contestants(12);
    let guesses = get_matches(&contestants_to_pairs(&c), 0, 6);

    // Remove all items from the round.
    let mut round = SavedRound::new(guesses.clone(), 2, 1);

    assert_eq!(round.num_consideration(), 6);
    round.eliminate_guesses(&round.guesses[0..6].to_vec());
    assert_eq!(round.num_consideration(), 0);

    // Specific items are removed.
    let new_guesses = guesses.clone();
    let mut round = SavedRound::new(new_guesses.clone(), 2, 1);

    for g in new_guesses.iter() {
        assert_eq!(round.pick_from_round(round.num_consideration()).unwrap().contains(g), true);
        round.eliminate_guesses(&vec![g.clone()]);
        assert_eq!(round.pick_from_round(round.num_consideration()).unwrap().contains(g), false);
    }
}

#[test]
fn test_pick_from_round() {
    let c = gen_contestants(12);
    let guesses = get_matches(&contestants_to_pairs(&c), 0, 6);
    let copy = &guesses.to_vec();

    let mut round = SavedRound::new(guesses.clone(), 2, 1);
    round.eliminate_guesses(&copy[0..2].to_vec());

    // The first four live guesses are the four that were not struck.
    assert_eq!(round.pick_from_round(4).unwrap(), guesses[2..6])
}

#[test]
fn test_eliminate_player() {
    let c = gen_contestants(12);
    let guesses = get_matches(&contestants_to_pairs(&c), 0, 6);

    let mut round = SavedRound::new(guesses.clone(), 2, 1);
    round.eliminate_player(&c[0]);
    round.eliminate_player(&c[1]);

    // Only four pairs remain because c[0] and c[1] sit in different pairs.
    assert_eq!(round.guesses.len(), 6);
    assert_eq!(round.guesses_left(), 4);
}

#[test]
fn test_pick_too_many() {
    let c = gen_contestants(12);
    let guesses = get_matches(&contestants_to_pairs(&c), 0, 6);
    let round = SavedRound::new(guesses, 2, 1);

    assert_eq!(
        round.pick_from_round(7),
        Err(matchmaker::gamestrategy::SolverError::NotEnoughGuesses)
    );
}

#[test]
fn test_probability_after_eliminations() {
    // A round with six live guesses and two correct: striking two of the
    // live guesses leaves the ratio at two correct out of four live.
    let c = gen_contestants(12);
    let guesses = get_matches(&contestants_to_pairs(&c), 0, 6);

    let mut round = SavedRound::new(guesses.clone(), 2, 1);
    assert_eq!(round.num_correct, 2);
    assert_eq!(round.guesses_left(), 6);

    round.eliminate_guesses(&guesses[0..2].to_vec());
    assert_eq!(round.num_correct, 2);
    assert_eq!(round.guesses_left(), 4);
    let ratio = (round.num_correct as f32) / (round.guesses_left() as f32);
    assert_eq!(ratio, 2.0 / 4.0);
}

#[test]
fn test_id_strings() {
    assert_eq!(matchmaker::utils::id_string(0), "0");
    assert_eq!(matchmaker::utils::id_string(105), "105");
    assert_eq!(matchmaker::utils::id_string(-12), "-12");
    assert_eq!(matchmaker::utils::uint_string(4000000000), "4000000000");
}

#[test]
fn test_pretty_string_poss() {
    let c = gen_contestants(2);
    let possibilities = matchmaker::possibility::PossibilityMap::initialize(&c);
    assert_eq!(matchmaker::utils::pretty_string_poss(&possibilities), "0: {1 ,}\n1: {0 ,}\n");
}
