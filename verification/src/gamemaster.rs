//! The game's oracle: it owns the secret pairing and answers ceremony and
//! truth-booth queries about it.

use vstd::prelude::*;

use crate::contestant::contains_pair;
use crate::contestant::pair_ids;
use crate::contestant::ref_ids;
use crate::contestant::spec_contains_pair;
use crate::contestant::ContestantPair;
use crate::contestant::Player;
use crate::gamestrategy::Feedback;

verus! {

/// How many of the guessed pairs appear in the secret pairing.
pub open spec fn match_count(secret: Seq<ContestantPair>, pairs: Seq<ContestantPair>) -> nat
    decreases pairs.len(),
{
    if pairs.len() == 0 {
        0
    } else {
        match_count(secret, pairs.drop_last()) + if spec_contains_pair(secret, pairs.last()) {
            1 as nat
        } else {
            0 as nat
        }
    }
}

/// One more pair counted adds its own indicator.
pub proof fn lemma_match_count_take_step(
    secret: Seq<ContestantPair>,
    pairs: Seq<ContestantPair>,
    i: int,
)
    requires
        0 <= i < pairs.len(),
    ensures
        match_count(secret, pairs.take(i + 1)) == match_count(secret, pairs.take(i)) + if spec_contains_pair(
            secret,
            pairs[i],
        ) {
            1 as nat
        } else {
            0 as nat
        },
{
    assert(pairs.take(i + 1).drop_last() =~= pairs.take(i));
    assert(pairs.take(i + 1).last() == pairs[i]);
}

/// Whether one of the secret pairs names this player's id.
pub open spec fn from_matches(ms: Seq<ContestantPair>, id: int) -> bool {
    exists|i: int| 0 <= i < ms.len() && (#[trigger] ms[i]).spec_has_id(id)
}

/// Two player lists holding the same players hold the same ids, as multisets.
proof fn lemma_ref_ids_permutation(s1: Seq<&Player>, s2: Seq<&Player>)
    requires
        s1.to_multiset() == s2.to_multiset(),
    ensures
        ref_ids(s1).to_multiset() == ref_ids(s2).to_multiset(),
    decreases s1.len(),
{
    broadcast use vstd::multiset::group_multiset_axioms;

    s1.to_multiset_ensures();
    s2.to_multiset_ensures();
    ref_ids(s1).to_multiset_ensures();
    ref_ids(s2).to_multiset_ensures();
    if s1.len() == 0 {
        assert(s2.len() == 0);
        assert(ref_ids(s1) =~= ref_ids(s2));
    } else {
        let x = s1.last();
        assert(s1.contains(x));
        assert(s2.to_multiset().count(x) > 0);
        assert(s2.contains(x));
        let j = choose|j: int| 0 <= j < s2.len() && s2[j] == x;
        assert(s1.remove(s1.len() - 1) =~= s1.drop_last());
        assert(s1.drop_last().to_multiset() =~= s1.to_multiset().remove(x));
        assert(s2.remove(j).to_multiset() =~= s2.to_multiset().remove(x));
        lemma_ref_ids_permutation(s1.drop_last(), s2.remove(j));

        let xid = x.id as int;
        assert(ref_ids(s1) =~= ref_ids(s1.drop_last()).push(xid));
        ref_ids(s1.drop_last()).to_multiset_ensures();
        assert(ref_ids(s1).to_multiset() =~= ref_ids(s1.drop_last()).to_multiset().insert(xid));

        assert(ref_ids(s2.remove(j)) =~= ref_ids(s2).remove(j));
        assert(ref_ids(s2).remove(j).to_multiset() =~= ref_ids(s2).to_multiset().remove(
            ref_ids(s2)[j],
        ));
        assert(ref_ids(s2)[j] == xid);
        assert(ref_ids(s2).contains(xid)) by {
            assert(ref_ids(s2)[j] == xid);
        }
        assert(ref_ids(s2).to_multiset().count(xid) > 0);
        assert(ref_ids(s2).to_multiset().remove(xid).insert(xid) =~= ref_ids(s2).to_multiset());
    }
}

/// The simulator owning the secret pairing. Contestant `2i` is secretly
/// matched with contestant `2i + 1`.
pub struct GameMaster {
    pub iterations: i32,
    pub num_matched: i32,
    pub matches: Vec<ContestantPair>,
    pub max_iterations: i32,
}

/// Relies on rand's `SliceRandom::shuffle` with the thread generator: the
/// result holds exactly the input's elements, in an order that depends on the
/// generator's state.
#[verifier::external_body]
fn shuffle_players<'a>(players: Vec<&'a Player>) -> (r: Vec<&'a Player>)
    ensures
        r@.to_multiset() == players@.to_multiset(),
{
    let mut players = players;
    rand::seq::SliceRandom::shuffle(players.as_mut_slice(), &mut rand::thread_rng());
    players
}

impl GameMaster {
    /// A fresh game: contestants with ids counting up from zero, paired off
    /// in order as the secret matching, and no queries made yet.
    pub fn initialize_game(num_contestants: i32, max_iterations: i32) -> (r: GameMaster)
        requires
            num_contestants >= 0,
        ensures
            r.iterations == 0,
            r.num_matched == 0,
            r.max_iterations == max_iterations,
            r.matches@.len() == num_contestants / 2,
            forall|i: int|
                0 <= i < r.matches@.len() ==> (#[trigger] r.matches@[i]).id_a() == 2 * i
                    && r.matches@[i].id_b() == 2 * i + 1,
    {
        let mut pairs: Vec<ContestantPair> = Vec::new();
        let mut i: i32 = 0;
        while i + 1 < num_contestants
            invariant
                0 <= i <= num_contestants || (num_contestants <= 1 && i == 0),
                i % 2 == 0,
                pairs@.len() == i / 2,
                forall|t: int|
                    0 <= t < pairs@.len() ==> (#[trigger] pairs@[t]).id_a() == 2 * t
                        && pairs@[t].id_b() == 2 * t + 1,
            decreases num_contestants - i,
        {
            pairs.push(ContestantPair::new(Player::new(i), Player::new(i + 1)));
            i += 2;
        }
        GameMaster { iterations: 0, matches: pairs, num_matched: 0, max_iterations }
    }

    /// Whether the guessed pair is one of the secret matches.
    pub fn is_match(&self, pair: &ContestantPair) -> (r: bool)
        ensures
            r == spec_contains_pair(self.matches@, *pair),
    {
        contains_pair(&self.matches, pair)
    }

    /// Answer a truth-booth query: reveal whether the pair is a secret match,
    /// counting the query and any success.
    pub fn truth_booth(&mut self, guess: ContestantPair) -> (r: Feedback)
        requires
            old(self).iterations < i32::MAX,
            old(self).num_matched < i32::MAX,
        ensures
            final(self).matches@ == old(self).matches@,
            final(self).max_iterations == old(self).max_iterations,
            final(self).iterations == old(self).iterations + 1,
            match r {
                Feedback::Correct(p) => p == guess && spec_contains_pair(old(self).matches@, guess)
                    && final(self).num_matched == old(self).num_matched + 1,
                Feedback::Wrong(p) => p == guess && !spec_contains_pair(old(self).matches@, guess)
                    && final(self).num_matched == old(self).num_matched,
            },
    {
        self.iterations = self.iterations + 1;
        if self.is_match(&guess) {
            self.num_matched = self.num_matched + 1;
            Feedback::Correct(guess)
        } else {
            Feedback::Wrong(guess)
        }
    }

    /// Answer a ceremony: how many of the guessed pairs are secret matches,
    /// wherever they stand in the guess.
    pub fn ceremony(&self, pairs: &Vec<ContestantPair>) -> (r: usize)
        ensures
            r == match_count(self.matches@, pairs@),
    {
        let n = pairs.len();
        let mut num_matches: usize = 0;
        let mut i: usize = 0;
        proof {
            assert(pairs@.take(0) =~= Seq::<ContestantPair>::empty());
        }
        while i < n
            invariant
                i <= n,
                n == pairs@.len(),
                num_matches == match_count(self.matches@, pairs@.take(i as int)),
                num_matches <= i,
            decreases n - i,
        {
            proof {
                lemma_match_count_take_step(self.matches@, pairs@, i as int);
            }
            if self.is_match(&pairs[i]) {
                num_matches += 1;
            }
            i += 1;
        }
        proof {
            assert(pairs@.take(n as int) =~= pairs@);
        }
        num_matches
    }

    /// The contestants of the game in a shuffled order: every player of every
    /// secret pair appears exactly once — the returned ids are a permutation
    /// of the flattened secret pairing — in an order the generator picks.
    pub fn contestants(&self) -> (r: Vec<&Player>)
        ensures
            r@.len() == 2 * self.matches@.len(),
            ref_ids(r@).to_multiset() == pair_ids(self.matches@).to_multiset(),
            forall|t: int|
                0 <= t < r@.len() ==> from_matches(self.matches@, (#[trigger] r@[t]).id as int),
    {
        let mut players: Vec<&Player> = Vec::new();
        let n = self.matches.len();
        let mut i: usize = 0;
        while i < n
            invariant
                i <= n,
                n == self.matches@.len(),
                players@.len() == 2 * i,
                forall|t: int|
                    0 <= t < players@.len() ==> (#[trigger] players@[t]).id as int == pair_ids(
                        self.matches@,
                    )[t],
            decreases n - i,
        {
            players.push(self.matches[i].get_a());
            players.push(self.matches[i].get_b());
            i += 1;
        }
        let ghost before = players@;
        proof {
            assert(ref_ids(before) =~= pair_ids(self.matches@));
        }
        let shuffled = shuffle_players(players);
        proof {
            shuffled@.to_multiset_ensures();
            before.to_multiset_ensures();
            assert(shuffled@.len() == before.len());
            lemma_ref_ids_permutation(shuffled@, before);
            assert forall|t: int|
                0 <= t < shuffled@.len() implies from_matches(
                self.matches@,
                (#[trigger] shuffled@[t]).id as int,
            ) by {
                assert(shuffled@.contains(shuffled@[t]));
                assert(shuffled@.to_multiset().count(shuffled@[t]) > 0);
                assert(before.to_multiset().count(shuffled@[t]) > 0);
                assert(before.contains(shuffled@[t]));
                let w = choose|w: int| 0 <= w < before.len() && before[w] == shuffled@[t];
                assert(before[w].id as int == pair_ids(self.matches@)[w]);
                let u = w / 2;
                assert(self.matches@[u].spec_has_id(before[w].id as int));
                assert(before[w].id == shuffled@[t].id);
            }
        }
        shuffled
    }

    /// How many queries the booth has answered.
    pub fn get_iterations(&self) -> (r: i32)
        ensures
            r == self.iterations,
    {
        self.iterations
    }

    /// Whether the game goes on: the query budget is not exhausted and not
    /// every match has been confirmed.
    pub fn in_progress(&self) -> (r: bool)
        requires
            self.matches@.len() <= i32::MAX,
        ensures
            r == (self.iterations < self.max_iterations && self.num_matched
                != self.matches@.len()),
    {
        self.iterations < self.max_iterations && self.num_matched != self.matches.len() as i32
    }
}

} // verus!
