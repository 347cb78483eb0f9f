//! Helpers for moving between lists of pairs and lists of contestants, and
//! for building test fixtures.

use vstd::prelude::*;

use crate::contestant::pair_ids;
use crate::contestant::player_ids;
use crate::contestant::ContestantPair;
use crate::contestant::Player;
use crate::possibility::PossEntry;
use crate::possibility::PossibilityMap;

verus! {

/// The character for one decimal digit.
pub open spec fn digit_char(d: nat) -> char {
    if d == 0 {
        '0'
    } else if d == 1 {
        '1'
    } else if d == 2 {
        '2'
    } else if d == 3 {
        '3'
    } else if d == 4 {
        '4'
    } else if d == 5 {
        '5'
    } else if d == 6 {
        '6'
    } else if d == 7 {
        '7'
    } else if d == 8 {
        '8'
    } else {
        '9'
    }
}

/// The decimal digits of a number, most significant first.
pub open spec fn spec_digits(n: nat) -> Seq<char>
    decreases n,
{
    if n < 10 {
        seq![digit_char(n)]
    } else {
        spec_digits(n / 10).push(digit_char(n % 10))
    }
}

/// The decimal rendering of a signed number: a minus sign, if negative, then
/// the digits of its magnitude.
pub open spec fn spec_int_str(x: int) -> Seq<char> {
    if x < 0 {
        seq!['-'] + spec_digits((-x) as nat)
    } else {
        spec_digits(x as nat)
    }
}

/// Append the decimal digits of `n`, most significant first.
fn push_digits(s: &mut String, n: u32)
    ensures
        final(s)@ == old(s)@ + spec_digits(n as nat),
    decreases n,
{
    proof {
        reveal_strlit("0");
        reveal_strlit("1");
        reveal_strlit("2");
        reveal_strlit("3");
        reveal_strlit("4");
        reveal_strlit("5");
        reveal_strlit("6");
        reveal_strlit("7");
        reveal_strlit("8");
        reveal_strlit("9");
    }
    let ghost pre = s@;
    if n >= 10 {
        push_digits(s, n / 10);
    }
    let d = n % 10;
    if d == 0 {
        s.append("0");
    } else if d == 1 {
        s.append("1");
    } else if d == 2 {
        s.append("2");
    } else if d == 3 {
        s.append("3");
    } else if d == 4 {
        s.append("4");
    } else if d == 5 {
        s.append("5");
    } else if d == 6 {
        s.append("6");
    } else if d == 7 {
        s.append("7");
    } else if d == 8 {
        s.append("8");
    } else {
        s.append("9");
    }
    proof {
        assert(s@ =~= pre + spec_digits(n as nat));
    }
}

/// The decimal rendering of an id. Mirrors `spec_int_str`.
pub fn id_string(x: i32) -> (r: String)
    ensures
        r@ == spec_int_str(x as int),
{
    let mut s = String::new();
    if x < 0 {
        proof {
            reveal_strlit("-");
        }
        s.append("-");
        let mag = (-(x as i64)) as u32;
        push_digits(&mut s, mag);
        proof {
            assert(s@ =~= spec_int_str(x as int));
        }
    } else {
        push_digits(&mut s, x as u32);
        proof {
            assert(s@ =~= spec_int_str(x as int));
        }
    }
    s
}

/// The decimal rendering of a count.
pub fn uint_string(x: u32) -> (r: String)
    ensures
        r@ == spec_digits(x as nat),
{
    let mut s = String::new();
    push_digits(&mut s, x);
    proof {
        assert(s@ =~= spec_digits(x as nat));
    }
    s
}

/// One rendered contestant: their id and display label.
pub open spec fn spec_player_str(p: Player) -> Seq<char> {
    ("Contestant ")@ + spec_int_str(p.id as int) + (" (")@ + p.name@ + (")")@
}

/// Pairs rendered one per line, both contestants named.
pub open spec fn spec_pairs_str(s: Seq<ContestantPair>) -> Seq<char>
    decreases s.len(),
{
    if s.len() == 0 {
        Seq::empty()
    } else {
        spec_pairs_str(s.drop_last()) + spec_player_str(s.last().a) + (", ")@ + spec_player_str(
            s.last().b,
        ) + ("\n")@
    }
}

/// Players rendered in one row, each followed by a comma and a line break.
pub open spec fn spec_players_str(s: Seq<&Player>) -> Seq<char>
    decreases s.len(),
{
    if s.len() == 0 {
        Seq::empty()
    } else {
        spec_players_str(s.drop_last()) + spec_player_str(*s.last()) + (", \n")@
    }
}

/// One more pair rendered appends its own line.
pub proof fn lemma_pairs_str_take_step(s: Seq<ContestantPair>, t: int)
    requires
        0 <= t < s.len(),
    ensures
        spec_pairs_str(s.take(t + 1)) == spec_pairs_str(s.take(t)) + spec_player_str(s[t].a) + (
        ", ")@ + spec_player_str(s[t].b) + ("\n")@,
{
    assert(s.take(t + 1).drop_last() =~= s.take(t));
    assert(s.take(t + 1).last() == s[t]);
}

/// One more player rendered appends its own fragment.
pub proof fn lemma_players_str_take_step(s: Seq<&Player>, t: int)
    requires
        0 <= t < s.len(),
    ensures
        spec_players_str(s.take(t + 1)) == spec_players_str(s.take(t)) + spec_player_str(*s[t]) + (
        ", \n")@,
{
    assert(s.take(t + 1).drop_last() =~= s.take(t));
    assert(s.take(t + 1).last() == s[t]);
}

/// Append one rendered contestant.
fn push_player_str(s: &mut String, p: &Player)
    ensures
        final(s)@ == old(s)@ + spec_player_str(*p),
{
    s.append("Contestant ");
    let ids = id_string(p.id);
    s.append(ids.as_str());
    s.append(" (");
    s.append(p.name.as_str());
    s.append(")");
    proof {
        assert(s@ =~= old(s)@ + spec_player_str(*p));
    }
}

impl<'a> crate::contestant::Players<'a> {
    /// The listed players rendered one per row. Mirrors `spec_players_str`.
    #[verifier::loop_isolation(false)]
    pub fn pretty_string(&self) -> (r: String)
        ensures
            r@ == spec_players_str(self.0@),
    {
        let mut out = String::new();
        let n = self.0.len();
        let mut i: usize = 0;
        proof {
            assert(out@ =~= spec_players_str(self.0@.take(0)));
        }
        while i < n
            invariant
                i <= n,
                out@ == spec_players_str(self.0@.take(i as int)),
            decreases n - i,
        {
            proof {
                lemma_players_str_take_step(self.0@, i as int);
            }
            push_player_str(&mut out, self.0[i]);
            out.append(", \n");
            i += 1;
        }
        proof {
            assert(self.0@.take(n as int) =~= self.0@);
        }
        out
    }
}

impl<'a> crate::contestant::ContestantPairs<'a> {
    /// The listed pairs rendered one per line. Mirrors `spec_pairs_str`.
    #[verifier::loop_isolation(false)]
    pub fn pretty_string(&self) -> (r: String)
        ensures
            r@ == spec_pairs_str(self.0@),
    {
        let mut out = String::new();
        let n = self.0.len();
        let mut i: usize = 0;
        proof {
            assert(out@ =~= spec_pairs_str(self.0@.take(0)));
        }
        while i < n
            invariant
                i <= n,
                out@ == spec_pairs_str(self.0@.take(i as int)),
            decreases n - i,
        {
            proof {
                lemma_pairs_str_take_step(self.0@, i as int);
            }
            push_player_str(&mut out, self.0[i].get_a());
            out.append(", ");
            push_player_str(&mut out, self.0[i].get_b());
            out.append("\n");
            i += 1;
        }
        proof {
            assert(self.0@.take(n as int) =~= self.0@);
        }
        out
    }
}

/// A candidate list rendered as ids, each followed by a space and a comma.
pub open spec fn spec_cands_str(s: Seq<Player>) -> Seq<char>
    decreases s.len(),
{
    if s.len() == 0 {
        Seq::empty()
    } else {
        spec_cands_str(s.drop_last()) + spec_int_str(s.last().id as int) + (" ,")@
    }
}

/// One possibility-map row: the key's id, then its candidates in braces.
pub open spec fn spec_poss_line(e: PossEntry) -> Seq<char> {
    spec_int_str(e.player.id as int) + (": {")@ + spec_cands_str(e.cands@) + ("}\n")@
}

/// The whole possibility map, one row per line.
pub open spec fn spec_poss_str(s: Seq<PossEntry>) -> Seq<char>
    decreases s.len(),
{
    if s.len() == 0 {
        Seq::empty()
    } else {
        spec_poss_str(s.drop_last()) + spec_poss_line(s.last())
    }
}

/// One more candidate rendered appends its own fragment.
pub proof fn lemma_cands_str_take_step(s: Seq<Player>, t: int)
    requires
        0 <= t < s.len(),
    ensures
        spec_cands_str(s.take(t + 1)) == spec_cands_str(s.take(t)) + spec_int_str(
            s[t].id as int,
        ) + (" ,")@,
{
    assert(s.take(t + 1).drop_last() =~= s.take(t));
    assert(s.take(t + 1).last() == s[t]);
}

/// One more row rendered appends its own line.
pub proof fn lemma_poss_str_take_step(s: Seq<PossEntry>, t: int)
    requires
        0 <= t < s.len(),
    ensures
        spec_poss_str(s.take(t + 1)) == spec_poss_str(s.take(t)) + spec_poss_line(s[t]),
{
    assert(s.take(t + 1).drop_last() =~= s.take(t));
    assert(s.take(t + 1).last() == s[t]);
}

/// The possibility map rendered for tracing: one line per unresolved
/// contestant, with the ids still viable as partners. Mirrors
/// `spec_poss_str`.
#[verifier::loop_isolation(false)]
pub fn pretty_string_poss(possibilities: &PossibilityMap) -> (r: String)
    ensures
        r@ == spec_poss_str(possibilities.entries@),
{
    let mut total_str = String::new();
    let n = possibilities.entries.len();
    let mut i: usize = 0;
    proof {
        assert(total_str@ =~= spec_poss_str(possibilities.entries@.take(0)));
    }
    while i < n
        invariant
            i <= n,
            total_str@ == spec_poss_str(possibilities.entries@.take(i as int)),
        decreases n - i,
    {
        let entry = &possibilities.entries[i];
        let mut line = String::new();
        let ids = id_string(entry.player.id);
        line.append(ids.as_str());
        line.append(": {");
        let m = entry.cands.len();
        let mut j: usize = 0;
        proof {
            assert(entry.cands@.take(0) =~= Seq::<Player>::empty());
            assert(line@ =~= spec_int_str(entry.player.id as int) + (": {")@ + spec_cands_str(
                entry.cands@.take(0),
            ));
        }
        while j < m
            invariant
                j <= m,
                m == entry.cands@.len(),
                line@ == spec_int_str(entry.player.id as int) + (": {")@ + spec_cands_str(
                    entry.cands@.take(j as int),
                ),
            decreases m - j,
        {
            proof {
                lemma_cands_str_take_step(entry.cands@, j as int);
            }
            let cid = id_string(entry.cands[j].id);
            line.append(cid.as_str());
            line.append(" ,");
            j += 1;
        }
        line.append("}\n");
        proof {
            assert(entry.cands@.take(m as int) =~= entry.cands@);
            lemma_poss_str_take_step(possibilities.entries@, i as int);
            assert(line@ =~= spec_poss_line(possibilities.entries@[i as int]));
        }
        total_str.append(line.as_str());
        i += 1;
    }
    proof {
        assert(possibilities.entries@.take(n as int) =~= possibilities.entries@);
    }
    total_str
}

/// Flatten a list of pairs into the list of their players, in order.
pub fn pairs_to_contestants(pairs: &Vec<ContestantPair>) -> (r: Vec<Player>)
    ensures
        player_ids(r@) == pair_ids(pairs@),
{
    let mut players: Vec<Player> = Vec::new();
    let n = pairs.len();
    let mut i: usize = 0;
    while i < n
        invariant
            i <= n,
            n == pairs@.len(),
            players@.len() == 2 * i,
            forall|t: int|
                0 <= t < 2 * i ==> (#[trigger] players@[t]).id as int == pair_ids(pairs@)[t],
        decreases n - i,
    {
        players.push(pairs[i].get_a().clone());
        players.push(pairs[i].get_b().clone());
        i += 1;
    }
    proof {
        assert(player_ids(players@) =~= pair_ids(pairs@));
    }
    players
}

/// Pair the contestants off two by two, in list order. A trailing odd
/// contestant is left out.
pub fn contestants_to_pairs(contestants: &Vec<Player>) -> (r: Vec<ContestantPair>)
    requires
        contestants@.len() >= 1,
        player_ids(contestants@).no_duplicates(),
    ensures
        r@.len() == contestants@.len() / 2,
        forall|t: int|
            0 <= t < r@.len() ==> (#[trigger] r@[t]).id_a() == player_ids(contestants@)[2 * t]
                && r@[t].id_b() == player_ids(contestants@)[2 * t + 1],
{
    let mut pairs: Vec<ContestantPair> = Vec::new();
    let n = contestants.len();
    let mut i: usize = 0;
    while i + 1 < n
        invariant
            i % 2 == 0,
            i <= n,
            n == contestants@.len(),
            pairs@.len() == i / 2,
            player_ids(contestants@).no_duplicates(),
            forall|t: int|
                0 <= t < pairs@.len() ==> (#[trigger] pairs@[t]).id_a() == player_ids(
                    contestants@,
                )[2 * t] && pairs@[t].id_b() == player_ids(contestants@)[2 * t + 1],
        decreases n - i,
    {
        proof {
            assert(player_ids(contestants@)[i as int] != player_ids(contestants@)[i as int + 1]);
        }
        pairs.push(ContestantPair::new(contestants[i].clone(), contestants[i + 1].clone()));
        i += 2;
    }
    pairs
}

/// A ceremony guess built from the true pairing: the first `num_perfect`
/// true pairs kept as they are, then the remaining contestants crossed
/// front-to-back so that none of those pairs is a true match when their
/// count is even.
pub fn get_matches(
    perf_matches: &Vec<ContestantPair>,
    num_perfect: usize,
    num_unperfect: usize,
) -> (r: Vec<ContestantPair>)
    requires
        num_perfect + num_unperfect <= perf_matches@.len(),
        pair_ids(perf_matches@).no_duplicates(),
    ensures
        r@.len() == perf_matches@.len(),
        forall|t: int|
            0 <= t < num_perfect ==> (#[trigger] r@[t]).id_a() == perf_matches@[t].id_a()
                && r@[t].id_b() == perf_matches@[t].id_b(),
        forall|t: int|
            num_perfect <= t < r@.len() ==> {
                let flat = pair_ids(perf_matches@.skip(num_perfect as int));
                let u = t - num_perfect;
                (#[trigger] r@[t]).id_a() == flat[u] && r@[t].id_b() == flat[flat.len() - 1 - u]
            },
{
    let mut new_matches: Vec<ContestantPair> = Vec::new();
    let n = perf_matches.len();
    let mut i: usize = 0;
    while i < num_perfect
        invariant
            i <= num_perfect,
            num_perfect <= n,
            n == perf_matches@.len(),
            new_matches@.len() == i,
            forall|t: int|
                0 <= t < i ==> (#[trigger] new_matches@[t]).id_a() == perf_matches@[t].id_a()
                    && new_matches@[t].id_b() == perf_matches@[t].id_b(),
        decreases num_perfect - i,
    {
        new_matches.push(perf_matches[i].clone());
        i += 1;
    }

    let mut rest: Vec<ContestantPair> = Vec::new();
    let mut j: usize = num_perfect;
    while j < n
        invariant
            num_perfect <= j <= n,
            n == perf_matches@.len(),
            rest@.len() == j - num_perfect,
            forall|t: int|
                0 <= t < rest@.len() ==> (#[trigger] rest@[t]).id_a() == perf_matches@[t
                    + num_perfect].id_a() && rest@[t].id_b() == perf_matches@[t
                    + num_perfect].id_b(),
        decreases n - j,
    {
        rest.push(perf_matches[j].clone());
        j += 1;
    }
    proof {
        assert(rest@.map_values(|p: ContestantPair| p.id_a()) =~= Seq::new(
            rest@.len(),
            |t: int| perf_matches@.skip(num_perfect as int)[t].id_a(),
        ));
    }
    let to_unmatch = pairs_to_contestants(&rest);
    let half = to_unmatch.len() / 2;
    let ghost flat = pair_ids(perf_matches@.skip(num_perfect as int));
    proof {
        assert(player_ids(to_unmatch@) =~= flat);
        assert(flat =~= pair_ids(perf_matches@).skip(2 * num_perfect));
        assert forall|u1: int, u2: int|
            0 <= u1 < flat.len() && 0 <= u2 < flat.len() && u1 != u2 implies flat[u1]
            != flat[u2] by {
            assert(flat[u1] == pair_ids(perf_matches@)[2 * num_perfect + u1]);
            assert(flat[u2] == pair_ids(perf_matches@)[2 * num_perfect + u2]);
        }
    }

    let mut k: usize = 0;
    while k < half
        invariant
            k <= half,
            half == to_unmatch@.len() / 2,
            to_unmatch@.len() % 2 == 0,
            player_ids(to_unmatch@) == flat,
            flat.no_duplicates(),
            new_matches@.len() == num_perfect + k,
            num_perfect + half <= perf_matches@.len(),
            n == perf_matches@.len(),
            forall|t: int|
                0 <= t < num_perfect ==> (#[trigger] new_matches@[t]).id_a()
                    == perf_matches@[t].id_a() && new_matches@[t].id_b()
                    == perf_matches@[t].id_b(),
            forall|t: int|
                num_perfect <= t < new_matches@.len() ==> {
                    let u = t - num_perfect;
                    (#[trigger] new_matches@[t]).id_a() == flat[u] && new_matches@[t].id_b()
                        == flat[flat.len() - 1 - u]
                },
        decreases half - k,
    {
        let p1 = &to_unmatch[k];
        let p2 = &to_unmatch[to_unmatch.len() - 1 - k];
        proof {
            assert(p1.id as int == flat[k as int]);
            assert(p2.id as int == flat[flat.len() - 1 - k]);
        }
        new_matches.push(ContestantPair::new(p1.clone(), p2.clone()));
        k += 1;
    }
    proof {
        assert(flat.len() == 2 * (n - num_perfect));
    }
    new_matches
}

/// Contestants with ids counting up from zero and empty display labels.
pub fn gen_contestants(num: usize) -> (r: Vec<Player>)
    requires
        num <= i32::MAX,
    ensures
        r@.len() == num,
        forall|t: int| 0 <= t < num ==> (#[trigger] r@[t]).id == t,
        player_ids(r@).no_duplicates(),
{
    let mut players: Vec<Player> = Vec::new();
    let mut i: usize = 0;
    while i < num
        invariant
            i <= num,
            num <= i32::MAX,
            players@.len() == i,
            forall|t: int| 0 <= t < i ==> (#[trigger] players@[t]).id == t,
        decreases num - i,
    {
        players.push(Player::new(i as i32));
        i += 1;
    }
    players
}

} // verus!
