//! Contestants and unordered pairs of contestants.

use vstd::prelude::*;

verus! {

/// A participant in the game. The numeric id is the identity: two players
/// with the same id stand for the same participant, whatever their labels.
#[derive(Debug, Eq, Hash)]
pub struct Player {
    pub id: i32,
    pub name: String,
}

impl Player {
    /// A fresh player with the given id and an empty display label.
    /// Labels are presentation only; the driver may attach one of its own.
    pub fn new(id: i32) -> (p: Player)
        ensures
            p.id == id,
            p.name@ == Seq::<char>::empty(),
    {
        Player { id, name: String::new() }
    }
}

impl Clone for Player {
    fn clone(&self) -> (r: Self)
        ensures
            r.id == self.id,
            r.name@ == self.name@,
    {
        Player { id: self.id, name: self.name.clone() }
    }
}

impl PartialEq for Player {
    fn eq(&self, other: &Self) -> bool {
        self.id == other.id
    }
}

impl vstd::std_specs::cmp::PartialEqSpecImpl for Player {
    open spec fn obeys_eq_spec() -> bool {
        true
    }

    open spec fn eq_spec(&self, other: &Self) -> bool {
        self.id == other.id
    }
}

/// An unordered pair of two distinct contestants: (A, B) and (B, A) are the
/// same pair.
#[derive(Debug, Eq, Hash)]
pub struct ContestantPair {
    pub a: Player,
    pub b: Player,
}

/// The ids of a sequence of players, in order.
pub open spec fn player_ids(s: Seq<Player>) -> Seq<int> {
    s.map_values(|p: Player| p.id as int)
}

/// The ids of a sequence of borrowed players, in order.
pub open spec fn ref_ids(s: Seq<&Player>) -> Seq<int> {
    s.map_values(|p: &Player| p.id as int)
}

/// Whether two pair values denote the same unordered pair of ids.
pub open spec fn same_pair(p: ContestantPair, q: ContestantPair) -> bool {
    ||| (p.id_a() == q.id_a() && p.id_b() == q.id_b())
    ||| (p.id_a() == q.id_b() && p.id_b() == q.id_a())
}

impl ContestantPair {
    /// The id of the first player as it was handed to the constructor.
    pub open spec fn id_a(self) -> int {
        self.a.id as int
    }

    /// The id of the second player as it was handed to the constructor.
    pub open spec fn id_b(self) -> int {
        self.b.id as int
    }

    /// Whether the pair names the given id on either side.
    pub open spec fn spec_has_id(self, id: int) -> bool {
        self.id_a() == id || self.id_b() == id
    }

    pub fn new(a: Player, b: Player) -> (p: ContestantPair)
        requires
            a.id != b.id,
        ensures
            p.a == a,
            p.b == b,
    {
        ContestantPair { a, b }
    }

    pub fn get_a(&self) -> (r: &Player)
        ensures
            *r == self.a,
    {
        &self.a
    }

    pub fn get_b(&self) -> (r: &Player)
        ensures
            *r == self.b,
    {
        &self.b
    }

    pub fn has_player(&self, player: &Player) -> (r: bool)
        ensures
            r == self.spec_has_id(player.id as int),
    {
        self.a.id == player.id || self.b.id == player.id
    }
}

/// The ids named by a sequence of pairs, flattened in order: first pair's
/// two ids, then the next pair's, and so on.
pub open spec fn pair_ids(s: Seq<ContestantPair>) -> Seq<int> {
    Seq::new(
        2 * s.len(),
        |t: int|
            if t % 2 == 0 {
                s[t / 2].id_a()
            } else {
                s[t / 2].id_b()
            },
    )
}

/// Whether the list holds the given unordered pair.
pub open spec fn spec_contains_pair(s: Seq<ContestantPair>, p: ContestantPair) -> bool {
    exists|i: int| 0 <= i < s.len() && same_pair(s[i], p)
}

/// Whether the list holds the given unordered pair. Mirrors
/// `spec_contains_pair`.
pub fn contains_pair(list: &Vec<ContestantPair>, p: &ContestantPair) -> (r: bool)
    ensures
        r == spec_contains_pair(list@, *p),
{
    let n = list.len();
    let mut i: usize = 0;
    while i < n
        invariant
            i <= n,
            n == list@.len(),
            forall|t: int| 0 <= t < i ==> !same_pair(list@[t], *p),
        decreases n - i,
    {
        if list[i].eq(p) {
            assert(same_pair(list@[i as int], *p));
            return true;
        }
        i += 1;
    }
    false
}

/// A list of borrowed players, grouped for rendering.
pub struct Players<'a>(pub &'a Vec<&'a Player>);

/// A list of borrowed pairs, grouped for rendering.
pub struct ContestantPairs<'a>(pub &'a Vec<ContestantPair>);

/// Clone a list of players; the ids come through unchanged.
pub fn clone_players(v: &Vec<Player>) -> (r: Vec<Player>)
    ensures
        player_ids(r@) == player_ids(v@),
{
    let mut out: Vec<Player> = Vec::new();
    let n = v.len();
    let mut i: usize = 0;
    while i < n
        invariant
            i <= n,
            n == v@.len(),
            out@.len() == i,
            forall|t: int| 0 <= t < i ==> (#[trigger] out@[t]).id == v@[t].id,
        decreases n - i,
    {
        out.push(v[i].clone());
        i += 1;
    }
    proof {
        assert(player_ids(out@) =~= player_ids(v@));
    }
    out
}

/// Clone a list of pairs; the ids come through unchanged.
pub fn clone_pairs(v: &Vec<ContestantPair>) -> (r: Vec<ContestantPair>)
    ensures
        r@.len() == v@.len(),
        forall|t: int|
            0 <= t < v@.len() ==> (#[trigger] r@[t]).id_a() == v@[t].id_a() && r@[t].id_b()
                == v@[t].id_b(),
        pair_ids(r@) == pair_ids(v@),
{
    let mut out: Vec<ContestantPair> = Vec::new();
    let n = v.len();
    let mut i: usize = 0;
    while i < n
        invariant
            i <= n,
            n == v@.len(),
            out@.len() == i,
            forall|t: int|
                0 <= t < i ==> (#[trigger] out@[t]).id_a() == v@[t].id_a() && out@[t].id_b()
                    == v@[t].id_b(),
        decreases n - i,
    {
        out.push(v[i].clone());
        i += 1;
    }
    proof {
        assert(pair_ids(out@) =~= pair_ids(v@));
    }
    out
}

impl Clone for ContestantPair {
    fn clone(&self) -> (r: Self)
        ensures
            r.id_a() == self.id_a(),
            r.id_b() == self.id_b(),
            r.a.name@ == self.a.name@,
            r.b.name@ == self.b.name@,
    {
        ContestantPair { a: self.a.clone(), b: self.b.clone() }
    }
}

impl PartialEq for ContestantPair {
    fn eq(&self, other: &Self) -> bool {
        (self.a.id == other.a.id && self.b.id == other.b.id) || (self.a.id == other.b.id
            && self.b.id == other.a.id)
    }
}

impl vstd::std_specs::cmp::PartialEqSpecImpl for ContestantPair {
    open spec fn obeys_eq_spec() -> bool {
        true
    }

    open spec fn eq_spec(&self, other: &Self) -> bool {
        same_pair(*self, *other)
    }
}

} // verus!
