//! The possibility map: for every unresolved contestant, the set of
//! contestants still viable as a partner.
//!
//! The structure is symmetric by invariant: B is a candidate of A exactly
//! when A is a candidate of B, and nobody is their own candidate. Confirmed
//! contestants are removed as keys and purged from every remaining candidate
//! list.

use vstd::prelude::*;

use crate::contestant::player_ids;
use crate::contestant::ContestantPair;
use crate::contestant::Player;

verus! {

/// One row of the possibility map: a contestant together with the
/// contestants still viable as their partner.
#[derive(Debug)]
pub struct PossEntry {
    pub player: Player,
    pub cands: Vec<Player>,
}

impl PossEntry {
    /// The id of this row's contestant.
    pub open spec fn pid(self) -> int {
        self.player.id as int
    }

    /// The ids of this row's candidates, in order.
    pub open spec fn cand_ids(self) -> Seq<int> {
        player_ids(self.cands@)
    }
}

/// Sum of the candidate-list lengths of a sequence of rows.
pub open spec fn total_from(s: Seq<PossEntry>) -> nat
    decreases s.len(),
{
    if s.len() == 0 {
        0
    } else {
        total_from(s.drop_last()) + s.last().cands@.len()
    }
}

/// The symmetric map of still-viable partner candidates.
#[derive(Debug)]
pub struct PossibilityMap {
    pub entries: Vec<PossEntry>,
}

impl PossibilityMap {
    /// The ids that are still keys (unresolved contestants), in row order.
    pub open spec fn key_ids(self) -> Seq<int> {
        self.entries@.map_values(|e: PossEntry| e.pid())
    }

    /// Whether the id is still unresolved.
    pub open spec fn is_key(self, id: int) -> bool {
        self.key_ids().contains(id)
    }

    /// The row index of an id that is a key.
    pub open spec fn idx_of(self, id: int) -> int {
        self.key_ids().index_of(id)
    }

    /// The candidate ids of the row at index `i`.
    pub open spec fn cands_at(self, i: int) -> Seq<int> {
        self.entries@[i].cand_ids()
    }

    /// The candidate ids of the key `id`.
    pub open spec fn cands_of(self, id: int) -> Seq<int> {
        self.cands_at(self.idx_of(id))
    }

    /// Whether `b` is still a viable candidate of the key `a`.
    pub open spec fn has_cand(self, a: int, b: int) -> bool {
        self.is_key(a) && self.cands_of(a).contains(b)
    }

    /// How many candidates the key `id` has left.
    pub open spec fn cand_count(self, id: int) -> nat {
        self.cands_of(id).len()
    }

    /// Sum of all candidate-list lengths. Every undetermined pair is counted
    /// twice, once from each side.
    pub open spec fn total(self) -> nat {
        total_from(self.entries@)
    }

    /// Whether the pair (x, y) can no longer be a match: one side is already
    /// resolved, or y has been struck from x's candidates.
    pub open spec fn spec_is_excluded(self, x: int, y: int) -> bool {
        !self.is_key(x) || !self.is_key(y) || !self.has_cand(x, y)
    }

    /// Whether `k` is the smallest candidate count among the keys.
    pub open spec fn spec_is_min_count(self, k: nat) -> bool {
        &&& exists|q: int| #[trigger] self.is_key(q) && self.cand_count(q) == k
        &&& forall|q: int| #[trigger] self.is_key(q) ==> self.cand_count(q) >= k
    }

    /// The row at `i` links its `j`-th candidate back consistently.
    pub open spec fn linked(self, i: int, j: int) -> bool {
        let k = self.key_ids()[i];
        let c = self.cands_at(i)[j];
        &&& c != k
        &&& self.is_key(c)
        &&& self.cands_of(c).contains(k)
    }

    /// Well-formedness: keys are unique, candidate lists hold no duplicates,
    /// and candidacy is symmetric, never reflexive, and only between keys.
    pub open spec fn wf(self) -> bool {
        &&& self.key_ids().no_duplicates()
        &&& forall|i: int|
            0 <= i < self.entries@.len() ==> (#[trigger] self.cands_at(i)).no_duplicates()
        &&& forall|i: int, j: int|
            0 <= i < self.entries@.len() && 0 <= j < self.cands_at(i).len()
                ==> #[trigger] self.linked(i, j)
        &&& self.total() <= usize::MAX
    }

    /// The abstract value: each unresolved contestant mapped to the set of
    /// ids still viable as their partner.
    pub open spec fn as_map(self) -> Map<int, Set<int>> {
        Map::new(|k: int| self.is_key(k), |k: int| self.cands_of(k).to_set())
    }

    /// In a well-formed map, a key's row index really carries that key.
    pub proof fn lemma_idx_of(self, id: int)
        requires
            self.is_key(id),
        ensures
            0 <= self.idx_of(id) < self.entries@.len(),
            self.key_ids()[self.idx_of(id)] == id,
    {
        let i = choose|i: int| 0 <= i < self.key_ids().len() && self.key_ids()[i] == id;
        assert(self.key_ids()[i] == id);
    }

    /// With unique keys, each row index is the index its key maps to.
    pub proof fn lemma_idx_of_row(self, i: int)
        requires
            self.key_ids().no_duplicates(),
            0 <= i < self.entries@.len(),
        ensures
            self.is_key(self.key_ids()[i]),
            self.idx_of(self.key_ids()[i]) == i,
            self.cands_of(self.key_ids()[i]) == self.cands_at(i),
    {
        let id = self.key_ids()[i];
        assert(self.is_key(id));
        self.lemma_idx_of(id);
        assert(self.idx_of(id) == i);
    }

    /// Candidacy is symmetric and never reflexive in a well-formed map.
    pub proof fn lemma_sym(self, a: int, b: int)
        requires
            self.wf(),
            self.has_cand(a, b),
        ensures
            self.has_cand(b, a),
            self.is_key(a),
            self.is_key(b),
            a != b,
    {
        self.lemma_idx_of(a);
        let i = self.idx_of(a);
        let j = choose|j: int| 0 <= j < self.cands_at(i).len() && self.cands_at(i)[j] == b;
        assert(self.linked(i, j));
    }

    /// Find the row of a given id, if the id is still a key.
    fn find_index(&self, id: i32) -> (r: Option<usize>)
        ensures
            match r {
                Some(i) => i < self.entries@.len() && self.key_ids()[i as int] == id as int,
                None => !self.is_key(id as int),
            },
    {
        let n = self.entries.len();
        let mut i: usize = 0;
        while i < n
            invariant
                i <= n,
                n == self.entries@.len(),
                forall|t: int| 0 <= t < i ==> self.key_ids()[t] != id as int,
            decreases n - i,
        {
            if self.entries[i].player.id == id {
                return Some(i);
            }
            i += 1;
        }
        None
    }

    /// How many contestants are still unresolved.
    pub fn num_keys(&self) -> (r: usize)
        ensures
            r == self.key_ids().len(),
    {
        self.entries.len()
    }

    /// Whether the given contestant is still unresolved.
    pub fn contains_key(&self, player: &Player) -> (r: bool)
        ensures
            r == self.is_key(player.id as int),
    {
        self.find_index(player.id).is_some()
    }

    /// The candidates still viable for the given contestant, if unresolved.
    pub fn candidates_of(&self, player: &Player) -> (r: Option<&Vec<Player>>)
        requires
            self.wf(),
        ensures
            match r {
                Some(v) => self.is_key(player.id as int) && player_ids(v@) == self.cands_of(
                    player.id as int,
                ),
                None => !self.is_key(player.id as int),
            },
    {
        match self.find_index(player.id) {
            Some(i) => {
                proof {
                    self.lemma_idx_of_row(i as int);
                }
                Some(&self.entries[i].cands)
            },
            None => None,
        }
    }

    /// Whether the pair can no longer be a match. Mirrors `spec_is_excluded`.
    #[verifier::loop_isolation(false)]
    pub fn is_excluded(&self, pair: &ContestantPair) -> (r: bool)
        requires
            self.wf(),
        ensures
            r == self.spec_is_excluded(pair.id_a(), pair.id_b()),
    {
        let ia = self.find_index(pair.get_a().id);
        let ib = self.find_index(pair.get_b().id);
        match (ia, ib) {
            (Some(i), Some(j)) => {
                proof {
                    self.lemma_idx_of_row(i as int);
                }
                let cands = &self.entries[i].cands;
                let m = cands.len();
                let mut t: usize = 0;
                while t < m
                    invariant
                        t <= m,
                        m == cands@.len(),
                        i < self.entries@.len(),
                        cands@ == self.entries@[i as int].cands@,
                        forall|u: int| 0 <= u < t ==> cands@[u].id != pair.id_b(),
                    decreases m - t,
                {
                    if cands[t].id == pair.get_b().id {
                        assert(self.cands_of(pair.id_a())[t as int] == pair.id_b());
                        assert(self.cands_of(pair.id_a()).contains(pair.id_b()));
                        return false;
                    }
                    t += 1;
                }
                assert forall|u: int|
                    0 <= u < self.cands_of(pair.id_a()).len() implies self.cands_of(pair.id_a())[u]
                    != pair.id_b() by {
                    assert(cands@[u].id != pair.id_b());
                }
                true
            },
            _ => true,
        }
    }

    /// Total undetermined pair-candidates: the candidate-list lengths summed,
    /// halved so that a pair is not counted from both sides.
    pub fn remaining_count(&self) -> (r: usize)
        requires
            self.wf(),
        ensures
            r == self.total() / 2,
    {
        let n = self.entries.len();
        let mut sum: usize = 0;
        let mut i: usize = 0;
        proof {
            assert(self.entries@.take(0) =~= Seq::<PossEntry>::empty());
        }
        while i < n
            invariant
                i <= n,
                n == self.entries@.len(),
                sum == total_from(self.entries@.take(i as int)),
                total_from(self.entries@.take(i as int)) <= self.total(),
                self.wf(),
            decreases n - i,
        {
            proof {
                lemma_total_take_step(self.entries@, i as int);
                lemma_total_take_bound(self.entries@, i + 1);
            }
            sum = sum + self.entries[i].cands.len();
            i += 1;
        }
        proof {
            assert(self.entries@.take(n as int) =~= self.entries@);
        }
        sum / 2
    }

    /// Build the full map: every contestant starts with every other
    /// contestant as a candidate.
    #[verifier::loop_isolation(false)]
    #[verifier::rlimit(100)]
    pub fn initialize(contestants: &Vec<Player>) -> (m: Self)
        requires
            contestants@.len() >= 2,
            player_ids(contestants@).no_duplicates(),
            contestants@.len() * contestants@.len() <= usize::MAX,
        ensures
            m.wf(),
            m.key_ids() == player_ids(contestants@),
            forall|x: int, y: int| #[trigger]
                m.has_cand(x, y) == (player_ids(contestants@).contains(x) && player_ids(
                    contestants@,
                ).contains(y) && x != y),
            forall|k: int| #[trigger] m.is_key(k) ==> m.cand_count(k) == contestants@.len() - 1,
            m.total() == contestants@.len() * (contestants@.len() - 1),
    {
        let ghost ids = player_ids(contestants@);
        let n = contestants.len();
        let mut entries: Vec<PossEntry> = Vec::new();
        let mut i: usize = 0;
        proof {
            assert(n * (n - 1) <= n * n) by (nonlinear_arith)
                requires
                    n >= 2,
            ;
        }
        while i < n
            invariant
                i <= n,
                entries@.len() == i,
                forall|t: int| 0 <= t < i ==> (#[trigger] entries@[t]).player.id as int == ids[t],
                forall|t: int|
                    0 <= t < i ==> (#[trigger] entries@[t]).cand_ids().len() == n - 1,
                forall|t: int, u: int|
                    0 <= t < i && 0 <= u < n - 1 ==> (#[trigger] entries@[t].cand_ids()[u]) == (
                    if u < t {
                        ids[u]
                    } else {
                        ids[u + 1]
                    }),
                total_from(entries@) == i * (n - 1),
            decreases n - i,
        {
            let mut cands: Vec<Player> = Vec::new();
            let mut j: usize = 0;
            while j < n
                invariant
                    j <= n,
                    cands@.len() == (if j <= i { j as int } else { j - 1 }),
                    forall|u: int|
                        0 <= u < cands@.len() ==> (#[trigger] cands@[u]).id as int == (
                        if u < i {
                            ids[u]
                        } else {
                            ids[u + 1]
                        }),
                decreases n - j,
            {
                if j != i {
                    cands.push(contestants[j].clone());
                }
                j += 1;
            }
            let ghost eprev = entries@;
            entries.push(PossEntry { player: contestants[i].clone(), cands });
            proof {
                lemma_total_push(eprev, entries@.last());
                assert(i * (n - 1) + (n - 1) == (i + 1) * (n - 1)) by (nonlinear_arith);
            }
            i += 1;
        }
        let m = PossibilityMap { entries };
        proof {
            assert(m.key_ids() =~= ids);
            assert forall|t: int, u: int|
                0 <= t < n && 0 <= u < n - 1 implies #[trigger] m.cands_at(t)[u] == (
            if u < t {
                ids[u]
            } else {
                ids[u + 1]
            }) by {}
            assert forall|t: int|
                0 <= t < n implies (#[trigger] m.cands_at(t)).no_duplicates() by {
                assert forall|u1: int, u2: int|
                    0 <= u1 < n - 1 && 0 <= u2 < n - 1 && u1 != u2 implies m.cands_at(t)[u1]
                    != m.cands_at(t)[u2] by {}
            }
            assert forall|t: int, u: int|
                0 <= t < n && 0 <= u < m.cands_at(t).len() implies #[trigger] m.linked(t, u) by {
                let c = m.cands_at(t)[u];
                let f: int = if u < t {
                    u
                } else {
                    u + 1
                };
                assert(c == ids[f] && f != t);
                assert(m.is_key(c));
                m.lemma_idx_of(c);
                assert(m.idx_of(c) == f);
                let back: int = if t < f {
                    t
                } else {
                    t - 1
                };
                assert(m.cands_at(f)[back] == ids[t]);
                assert(m.cands_of(c).contains(ids[t]));
            }
            assert forall|x: int, y: int| #[trigger]
                m.has_cand(x, y) == (ids.contains(x) && ids.contains(y) && x != y) by {
                if ids.contains(x) {
                    m.lemma_idx_of(x);
                    let t = m.idx_of(x);
                    if ids.contains(y) && x != y {
                        let f = choose|f: int| 0 <= f < ids.len() && ids[f] == y;
                        let u: int = if f < t {
                            f
                        } else {
                            f - 1
                        };
                        assert(m.cands_at(t)[u] == y);
                        assert(m.cands_of(x).contains(y));
                    }
                    if m.cands_of(x).contains(y) {
                        let u = choose|u: int|
                            0 <= u < m.cands_at(t).len() && m.cands_at(t)[u] == y;
                        assert(m.linked(t, u));
                    }
                } else {
                    assert(!m.is_key(x));
                }
            }
            assert forall|k: int| #[trigger] m.is_key(k) implies m.cand_count(k) == n - 1 by {
                m.lemma_idx_of(k);
            }
        }
        m
    }

    /// The unresolved contestant with the fewest candidates left, skipping
    /// those named in `off_limits`. Ties fall to the earliest row.
    #[verifier::loop_isolation(false)]
    pub fn most_constrained(&self, off_limits: &Vec<Player>) -> (r: Option<(Player, usize)>)
        requires
            self.wf(),
        ensures
            match r {
                Some(pc) => self.is_key(pc.0.id as int) && !player_ids(off_limits@).contains(
                    pc.0.id as int,
                ) && pc.1 == self.cand_count(pc.0.id as int) && forall|q: int|
                    self.is_key(q) && !player_ids(off_limits@).contains(q)
                        ==> #[trigger] self.cand_count(q) >= pc.1,
                None => forall|q: int| #[trigger]
                    self.is_key(q) ==> player_ids(off_limits@).contains(q),
            },
    {
        let n = self.entries.len();
        let mut best: Option<usize> = None;
        let mut i: usize = 0;
        while i < n
            invariant
                i <= n,
                match best {
                    Some(t) => t < i && !player_ids(off_limits@).contains(self.key_ids()[t as int])
                        && forall|u: int|
                        0 <= u < i && !player_ids(off_limits@).contains(self.key_ids()[u])
                            ==> #[trigger] self.cands_at(u).len() >= self.cands_at(t as int).len(),
                    None => forall|u: int|
                        0 <= u < i ==> player_ids(off_limits@).contains(#[trigger] self.key_ids()[u]),
                },
            decreases n - i,
        {
            let skip = has_id(off_limits, self.entries[i].player.id);
            proof {
                assert(player_ids(self.entries@[i as int].cands@) == self.cands_at(i as int));
            }
            if !skip {
                best = match best {
                    Some(t) => {
                        if self.entries[i].cands.len() < self.entries[t].cands.len() {
                            Some(i)
                        } else {
                            Some(t)
                        }
                    },
                    None => Some(i),
                };
            }
            i += 1;
        }
        match best {
            Some(t) => {
                proof {
                    self.lemma_idx_of_row(t as int);
                    assert forall|q: int|
                        self.is_key(q) && !player_ids(off_limits@).contains(
                            q,
                        ) implies #[trigger] self.cand_count(q) >= self.cands_at(t as int).len() by {
                        self.lemma_idx_of(q);
                    }
                }
                Some((self.entries[t].player.clone(), self.entries[t].cands.len()))
            },
            None => {
                proof {
                    assert forall|q: int| #[trigger]
                        self.is_key(q) implies player_ids(off_limits@).contains(q) by {
                        self.lemma_idx_of(q);
                    }
                }
                None
            },
        }
    }

    /// Rule the pair out as a possible match, in both directions at once.
    ///
    /// Striking a pair from a contestant with no candidates left cannot arise
    /// here: while the pair is still viable, each side holds the other, so
    /// each side has at least one candidate.
    pub fn exclude_pair(&mut self, pair: &ContestantPair)
        requires
            old(self).wf(),
            old(self).has_cand(pair.id_a(), pair.id_b()),
        ensures
            final(self).wf(),
            final(self).key_ids() == old(self).key_ids(),
            final(self).spec_is_excluded(pair.id_a(), pair.id_b()),
            forall|x: int, y: int|
                final(self).has_cand(x, y) == (old(self).has_cand(x, y) && !(x == pair.id_a()
                    && y == pair.id_b()) && !(x == pair.id_b() && y == pair.id_a())),
            forall|k: int|
                old(self).is_key(k) ==> final(self).cand_count(k) as int == (
                if k == pair.id_a() || k == pair.id_b() {
                    old(self).cand_count(k) - 1
                } else {
                    old(self).cand_count(k) as int
                }),
            final(self).total() + 2 == old(self).total(),
            final(self).as_map() == exclude_map(old(self).as_map(), pair.id_a(), pair.id_b()),
    {
        let ghost a = pair.id_a();
        let ghost b = pair.id_b();
        let ghost s0 = old(self).entries@;
        proof {
            old(self).lemma_sym(a, b);
            old(self).lemma_idx_of(a);
            old(self).lemma_idx_of(b);
        }
        let a_id = pair.get_a().id;
        let b_id = pair.get_b().id;

        let ia = match self.find_index(a_id) {
            Some(i) => i,
            None => {
                proof {
                    assert(false);
                }
                0
            },
        };
        proof {
            old(self).lemma_idx_of_row(ia as int);
        }
        let mut row = self.entries.remove(ia);
        let pa = match find_cand_pos(&row.cands, b_id) {
            Some(p) => p,
            None => {
                proof {
                    assert(false);
                }
                0
            },
        };
        row.cands.remove(pa);
        self.entries.insert(ia, row);
        let ghost s1 = self.entries@;
        proof {
            assert(s1 =~= s0.update(ia as int, s1[ia as int]));
            lemma_keys_update(s0, ia as int, s1[ia as int]);
            assert(self.key_ids() =~= old(self).key_ids());
        }

        let ib = match self.find_index(b_id) {
            Some(i) => i,
            None => {
                proof {
                    assert(false);
                }
                0
            },
        };
        proof {
            assert(ib != ia) by {
                assert(old(self).key_ids()[ib as int] == b);
            }
            old(self).lemma_idx_of_row(ib as int);
            assert(s1[ib as int] == s0[ib as int]);
        }
        let mut row2 = self.entries.remove(ib);
        let pb = match find_cand_pos(&row2.cands, a_id) {
            Some(p) => p,
            None => {
                proof {
                    assert(false);
                }
                0
            },
        };
        row2.cands.remove(pb);
        self.entries.insert(ib, row2);

        proof {
            let s2 = self.entries@;
            let iaa = ia as int;
            let ibb = ib as int;
            assert(s2 =~= s1.update(ibb, s2[ibb]));
            lemma_keys_update(s1, ibb, s2[ibb]);
            assert(self.key_ids() =~= old(self).key_ids());
            let keys = old(self).key_ids();

            // The two touched rows: their id sequences lose exactly b and a.
            lemma_ids_remove(s0[iaa].cands@, pa as int);
            lemma_remove_unique(old(self).cands_at(iaa), pa as int);
            lemma_ids_remove(s0[ibb].cands@, pb as int);
            lemma_remove_unique(old(self).cands_at(ibb), pb as int);
            assert(self.cands_at(iaa) =~= old(self).cands_at(iaa).remove(pa as int));
            assert(self.cands_at(ibb) =~= old(self).cands_at(ibb).remove(pb as int));
            assert(forall|i: int|
                0 <= i < keys.len() && i != iaa && i != ibb ==> self.cands_at(i)
                    == old(self).cands_at(i));

            // Row lookups agree between the old and new maps.
            assert forall|k: int| old(self).is_key(k) implies self.idx_of(k) == old(self).idx_of(
                k,
            ) && 0 <= self.idx_of(k) < keys.len() && keys[self.idx_of(k)] == k by {
                old(self).lemma_idx_of(k);
                self.lemma_idx_of(k);
                assert(keys[old(self).idx_of(k)] == k);
            }

            // Pointwise candidate change.
            assert forall|x: int, y: int| #[trigger]
                self.has_cand(x, y) == (old(self).has_cand(x, y) && !(x == a && y == b) && !(x
                    == b && y == a)) by {
                if old(self).is_key(x) {
                    let i = old(self).idx_of(x);
                    if x == a {
                        assert(old(self).cands_at(iaa)[pa as int] == b);
                        assert(self.cands_of(x).contains(y) == (old(self).cands_of(x).contains(y)
                            && y != b));
                    } else if x == b {
                        assert(old(self).cands_at(ibb)[pb as int] == a);
                        assert(self.cands_of(x).contains(y) == (old(self).cands_of(x).contains(y)
                            && y != a));
                    } else {
                        assert(self.cands_at(i) == old(self).cands_at(i));
                    }
                    if old(self).has_cand(x, y) && !(x == a && y == b) && !(x == b && y == a) {
                        if x == a && y == a {
                            old(self).lemma_sym(x, y);
                        }
                        assert(self.has_cand(x, y));
                    }
                } else {
                    assert(!self.is_key(x));
                }
            }

            // Candidate counts.
            assert forall|k: int| old(self).is_key(k) implies self.cand_count(k) as int == (
            if k == a || k == b {
                old(self).cand_count(k) - 1
            } else {
                old(self).cand_count(k) as int
            }) by {
                let i = old(self).idx_of(k);
                if k == a {
                    assert(i == iaa);
                } else if k == b {
                    assert(i == ibb);
                } else {
                    assert(self.cands_at(i) == old(self).cands_at(i));
                }
            }

            // Well-formedness is preserved.
            assert forall|i: int|
                0 <= i < s2.len() implies (#[trigger] self.cands_at(i)).no_duplicates() by {
                if i != iaa && i != ibb {
                    assert(self.cands_at(i) == old(self).cands_at(i));
                }
            }
            assert forall|i: int, j: int|
                0 <= i < s2.len() && 0 <= j < self.cands_at(i).len() implies #[trigger] self.linked(
                i,
                j,
            ) by {
                let k = keys[i];
                let c = self.cands_at(i)[j];
                self.lemma_idx_of_row(i);
                assert(self.cands_of(k).contains(c));
                assert(self.has_cand(k, c));
                assert(old(self).has_cand(k, c));
                old(self).lemma_sym(k, c);
                assert(self.has_cand(c, k));
            }
            lemma_total_update(s0, iaa, s1[iaa]);
            lemma_total_update(s1, ibb, s2[ibb]);

            // The abstract map moves by exactly the exclusion step.
            assert forall|k: int| #[trigger]
                self.as_map().dom().contains(k) implies self.as_map()[k] == exclude_map(
                old(self).as_map(),
                a,
                b,
            )[k] by {
                if k == a {
                    assert(self.cands_of(k).to_set() =~= old(self).cands_of(k).to_set().remove(b));
                } else if k == b {
                    assert(self.cands_of(k).to_set() =~= old(self).cands_of(k).to_set().remove(a));
                } else {
                    assert(self.cands_of(k).to_set() =~= old(self).cands_of(k).to_set());
                }
            }
            assert(self.as_map() =~~= exclude_map(old(self).as_map(), a, b));
        }
    }

    /// Settle the pair as a confirmed match: both contestants stop being
    /// keys and are purged from every remaining candidate list.
    #[verifier::loop_isolation(false)]
    #[verifier::rlimit(100)]
    pub fn lock_pair_as_match(&mut self, pair: &ContestantPair)
        requires
            old(self).wf(),
            old(self).is_key(pair.id_a()),
            old(self).is_key(pair.id_b()),
            pair.id_a() != pair.id_b(),
        ensures
            final(self).wf(),
            final(self).key_ids().len() + 2 == old(self).key_ids().len(),
            forall|k: int| #[trigger]
                final(self).is_key(k) == (old(self).is_key(k) && k != pair.id_a() && k
                    != pair.id_b()),
            forall|x: int, y: int| #[trigger]
                final(self).has_cand(x, y) == (old(self).has_cand(x, y) && x != pair.id_a() && x
                    != pair.id_b() && y != pair.id_a() && y != pair.id_b()),
            final(self).total() <= old(self).total(),
            final(self).as_map() == confirm_map(old(self).as_map(), pair.id_a(), pair.id_b()),
    {
        let ghost a = pair.id_a();
        let ghost b = pair.id_b();
        let a_id = pair.get_a().id;
        let b_id = pair.get_b().id;
        let n = self.entries.len();
        let mut i: usize = 0;
        while i < n
            invariant
                i <= n,
                self.entries@.len() == n,
                self.key_ids() == old(self).key_ids(),
                forall|t: int| i <= t < n ==> self.entries@[t] == old(self).entries@[t],
                forall|t: int|
                    0 <= t < i ==> (#[trigger] self.cands_at(t)).no_duplicates(),
                forall|t: int, c: int|
                    0 <= t < i ==> #[trigger] self.cands_at(t).contains(c) == (old(
                        self,
                    ).cands_at(t).contains(c) && c != a && c != b),
                forall|t: int|
                    0 <= t < i ==> (#[trigger] self.cands_at(t)).len() <= old(self).cands_at(
                        t,
                    ).len(),
                total_from(self.entries@) <= total_from(old(self).entries@),
            decreases n - i,
        {
            let ghost mprev = *self;
            let ghost sprev = self.entries@;
            let row = self.entries.remove(i);
            proof {
                assert(player_ids(row.cands@) == old(self).cands_at(i as int));
            }
            let row2 = strip_two(row, a_id, b_id);
            self.entries.insert(i, row2);
            proof {
                assert(self.entries@ =~= sprev.update(i as int, row2));
                lemma_keys_update(sprev, i as int, row2);
                assert(self.key_ids() =~= old(self).key_ids());
                lemma_total_update(sprev, i as int, row2);
                assert(self.cands_at(i as int) == row2.cand_ids());
                assert(forall|c: int|
                    self.cands_at(i as int).contains(c) == (old(self).cands_at(
                        i as int,
                    ).contains(c) && c != a && c != b));
                assert forall|t: int|
                    0 <= t < i implies (#[trigger] self.cands_at(t)) == mprev.cands_at(t) by {
                    assert(self.entries@[t] == mprev.entries@[t]);
                }
            }
            i += 1;
        }
        let ghost m1 = *self;
        let ia = match self.find_index(a_id) {
            Some(t) => t,
            None => {
                proof {
                    assert(false);
                }
                0
            },
        };
        self.entries.remove(ia);
        let ghost m2 = *self;
        proof {
            lemma_keys_remove(m1.entries@, ia as int);
            lemma_remove_unique(m1.key_ids(), ia as int);
            assert(m2.key_ids() =~= m1.key_ids().remove(ia as int));
        }
        let ib = match self.find_index(b_id) {
            Some(t) => t,
            None => {
                proof {
                    assert(false);
                }
                0
            },
        };
        self.entries.remove(ib);

        proof {
            let iaa = ia as int;
            let ibb = ib as int;
            lemma_keys_remove(m2.entries@, ibb);
            lemma_remove_unique(m2.key_ids(), ibb);
            assert(self.key_ids() =~= m2.key_ids().remove(ibb));
            m1.entries@.remove_ensures(iaa);
            m2.entries@.remove_ensures(ibb);

            // Keys: exactly a and b are gone.
            assert forall|k: int| #[trigger]
                self.is_key(k) == (old(self).is_key(k) && k != a && k != b) by {}

            // Every surviving key still owns the row it had after the purge.
            assert forall|k: int| self.is_key(k) implies self.cands_of(k) == m1.cands_of(k)
                && old(self).is_key(k) by {
                self.lemma_idx_of(k);
                let t = self.idx_of(k);
                let t1: int = if t < ibb {
                    t
                } else {
                    t + 1
                };
                assert(m2.entries@[t1] == self.entries@[t] && m2.key_ids()[t1] == k);
                let t2: int = if t1 < iaa {
                    t1
                } else {
                    t1 + 1
                };
                assert(m1.entries@[t2] == m2.entries@[t1] && m1.key_ids()[t2] == k);
                m1.lemma_idx_of_row(t2);
            }

            // Pointwise candidate change.
            assert forall|x: int, y: int| #[trigger]
                self.has_cand(x, y) == (old(self).has_cand(x, y) && x != a && x != b && y != a
                    && y != b) by {
                if self.is_key(x) {
                    let t2 = m1.idx_of(x);
                    m1.lemma_idx_of(x);
                    assert(m1.cands_at(t2).contains(y) == (old(self).cands_at(t2).contains(y) && y
                        != a && y != b));
                    old(self).lemma_idx_of(x);
                    assert(old(self).idx_of(x) == t2);
                } else {
                    if old(self).is_key(x) && x != a && x != b {
                        assert(self.is_key(x));
                    }
                }
            }

            // Well-formedness.
            assert forall|t: int|
                0 <= t < self.entries@.len() implies (#[trigger] self.cands_at(
                t,
            )).no_duplicates() by {
                let k = self.key_ids()[t];
                self.lemma_idx_of_row(t);
                let t1: int = if t < ibb {
                    t
                } else {
                    t + 1
                };
                let t2: int = if t1 < iaa {
                    t1
                } else {
                    t1 + 1
                };
                assert(self.entries@[t] == m1.entries@[t2]);
                assert(m1.cands_at(t2).no_duplicates());
            }
            assert forall|t: int, j: int|
                0 <= t < self.entries@.len() && 0 <= j < self.cands_at(t).len() implies #[trigger]
                self.linked(t, j) by {
                let k = self.key_ids()[t];
                self.lemma_idx_of_row(t);
                let c = self.cands_at(t)[j];
                assert(self.cands_of(k).contains(c));
                assert(self.has_cand(k, c));
                assert(old(self).has_cand(k, c));
                old(self).lemma_sym(k, c);
                assert(self.has_cand(c, k));
            }
            lemma_total_remove(m1.entries@, iaa);
            lemma_total_remove(m2.entries@, ibb);

            // The abstract map moves by exactly the confirmation step.
            assert forall|k: int| #[trigger]
                self.as_map().dom().contains(k) implies self.as_map()[k] == confirm_map(
                old(self).as_map(),
                a,
                b,
            )[k] by {
                assert(self.is_key(k) && old(self).is_key(k));
                assert forall|x: int| #[trigger]
                    self.cands_of(k).contains(x) == (old(self).cands_of(k).contains(x) && x != a
                        && x != b) by {
                    assert(self.has_cand(k, x) == (old(self).has_cand(k, x) && k != a && k != b
                        && x != a && x != b));
                }
                assert(self.cands_of(k).to_set() =~= old(self).cands_of(k).to_set().remove(
                    a,
                ).remove(b));
            }
            assert(self.as_map() =~~= confirm_map(old(self).as_map(), a, b));
        }
    }
}

/// Whether any player in the list carries the given id.
pub fn has_id(players: &Vec<Player>, id: i32) -> (r: bool)
    ensures
        r == player_ids(players@).contains(id as int),
{
    let n = players.len();
    let mut i: usize = 0;
    while i < n
        invariant
            i <= n,
            n == players@.len(),
            forall|t: int| 0 <= t < i ==> players@[t].id != id,
        decreases n - i,
    {
        if players[i].id == id {
            assert(player_ids(players@)[i as int] == id as int);
            return true;
        }
        i += 1;
    }
    proof {
        assert forall|t: int|
            0 <= t < player_ids(players@).len() implies player_ids(players@)[t] != id as int by {
            assert(players@[t].id != id);
        }
    }
    false
}

/// Find the position of an id in a candidate list.
fn find_cand_pos(cands: &Vec<Player>, id: i32) -> (r: Option<usize>)
    ensures
        match r {
            Some(p) => p < cands@.len() && cands@[p as int].id == id,
            None => !player_ids(cands@).contains(id as int),
        },
{
    let n = cands.len();
    let mut i: usize = 0;
    while i < n
        invariant
            i <= n,
            n == cands@.len(),
            forall|t: int| 0 <= t < i ==> cands@[t].id != id,
        decreases n - i,
    {
        if cands[i].id == id {
            return Some(i);
        }
        i += 1;
    }
    proof {
        assert forall|t: int|
            0 <= t < player_ids(cands@).len() implies player_ids(cands@)[t] != id as int by {
            assert(cands@[t].id != id);
        }
    }
    None
}

/// Drop the candidates with ids `x` and `y` from one row, keeping the rest in
/// order.
fn strip_two(row: PossEntry, x: i32, y: i32) -> (r: PossEntry)
    requires
        player_ids(row.cands@).no_duplicates(),
    ensures
        r.player == row.player,
        r.cand_ids().no_duplicates(),
        forall|c: int|
            r.cand_ids().contains(c) == (row.cand_ids().contains(c) && c != x as int && c
                != y as int),
        r.cands@.len() <= row.cands@.len(),
{
    let mut out = row;
    let ghost ids0 = player_ids(out.cands@);
    match find_cand_pos(&out.cands, x) {
        Some(p) => {
            proof {
                lemma_ids_remove(out.cands@, p as int);
                lemma_remove_unique(ids0, p as int);
            }
            out.cands.remove(p);
        },
        None => (),
    }
    let ghost ids1 = player_ids(out.cands@);
    proof {
        assert(ids1.no_duplicates());
        assert(forall|c: int| ids1.contains(c) == (ids0.contains(c) && c != x as int));
    }
    match find_cand_pos(&out.cands, y) {
        Some(p) => {
            proof {
                lemma_ids_remove(out.cands@, p as int);
                lemma_remove_unique(ids1, p as int);
            }
            out.cands.remove(p);
        },
        None => (),
    }
    out
}

/// The still-possible candidate sets after (x, y) is ruled out: y leaves x's
/// set and x leaves y's set; nothing else moves.
pub open spec fn exclude_map(m: Map<int, Set<int>>, x: int, y: int) -> Map<int, Set<int>> {
    Map::new(
        |k: int| m.dom().contains(k),
        |k: int|
            if k == x {
                m[k].remove(y)
            } else if k == y {
                m[k].remove(x)
            } else {
                m[k]
            },
    )
}

/// The still-possible candidate sets after (x, y) is confirmed: both leave
/// the key set and every remaining candidate set.
pub open spec fn confirm_map(m: Map<int, Set<int>>, x: int, y: int) -> Map<int, Set<int>> {
    Map::new(
        |k: int| m.dom().contains(k) && k != x && k != y,
        |k: int| m[k].remove(x).remove(y),
    )
}

/// Ruling a pair out is the same operation whichever way round the pair is
/// written.
pub proof fn lemma_exclude_map_symmetric(m: Map<int, Set<int>>, x: int, y: int)
    ensures
        exclude_map(m, x, y) == exclude_map(m, y, x),
{
    if x == y {
        assert(exclude_map(m, x, y) =~= exclude_map(m, y, x));
    } else {
        assert(exclude_map(m, x, y) =~= exclude_map(m, y, x));
    }
}

/// Confirming a pair is the same operation whichever way round the pair is
/// written.
pub proof fn lemma_confirm_map_symmetric(m: Map<int, Set<int>>, x: int, y: int)
    ensures
        confirm_map(m, x, y) == confirm_map(m, y, x),
{
    assert forall|k: int| #[trigger]
        confirm_map(m, x, y).dom().contains(k) implies confirm_map(m, x, y)[k] == confirm_map(
        m,
        y,
        x,
    )[k] by {
        assert(m[k].remove(x).remove(y) =~= m[k].remove(y).remove(x));
    }
    assert(confirm_map(m, x, y) =~= confirm_map(m, y, x));
}

/// Mapping to ids commutes with removing a position.
pub proof fn lemma_ids_remove(s: Seq<Player>, p: int)
    requires
        0 <= p < s.len(),
    ensures
        player_ids(s.remove(p)) =~= player_ids(s).remove(p),
{
    s.remove_ensures(p);
    player_ids(s).remove_ensures(p);
}

/// Removing a position from a duplicate-free sequence removes exactly that
/// value.
pub proof fn lemma_remove_unique(s: Seq<int>, p: int)
    requires
        s.no_duplicates(),
        0 <= p < s.len(),
    ensures
        s.remove(p).no_duplicates(),
        forall|y: int| s.remove(p).contains(y) == (s.contains(y) && y != s[p]),
        s.remove(p).len() == s.len() - 1,
{
    s.remove_ensures(p);
    assert forall|y: int| s.remove(p).contains(y) implies (s.contains(y) && y != s[p]) by {
        let t = choose|t: int| 0 <= t < s.remove(p).len() && s.remove(p)[t] == y;
        if t < p {
            assert(s[t] == y);
        } else {
            assert(s[t + 1] == y);
        }
    }
    assert forall|y: int| s.contains(y) && y != s[p] implies s.remove(p).contains(y) by {
        let t = choose|t: int| 0 <= t < s.len() && s[t] == y;
        if t < p {
            assert(s.remove(p)[t] == y);
        } else {
            assert(t > p);
            assert(s.remove(p)[t - 1] == y);
        }
    }
}

/// The key ids after replacing a row are the key ids with that one id
/// replaced.
pub proof fn lemma_keys_update(s: Seq<PossEntry>, i: int, e: PossEntry)
    requires
        0 <= i < s.len(),
    ensures
        s.update(i, e).map_values(|x: PossEntry| x.pid()) =~= s.map_values(
            |x: PossEntry| x.pid(),
        ).update(i, e.pid()),
{
}

/// The key ids after removing a row are the key ids with that id removed.
pub proof fn lemma_keys_remove(s: Seq<PossEntry>, p: int)
    requires
        0 <= p < s.len(),
    ensures
        s.remove(p).map_values(|x: PossEntry| x.pid()) =~= s.map_values(
            |x: PossEntry| x.pid(),
        ).remove(p),
{
    s.remove_ensures(p);
    s.map_values(|x: PossEntry| x.pid()).remove_ensures(p);
}

/// Replacing a row trades its candidate count in the running total.
pub proof fn lemma_total_update(s: Seq<PossEntry>, i: int, e: PossEntry)
    requires
        0 <= i < s.len(),
    ensures
        total_from(s.update(i, e)) + s[i].cands@.len() == total_from(s) + e.cands@.len(),
    decreases s.len(),
{
    if i == s.len() - 1 {
        assert(s.update(i, e).drop_last() =~= s.drop_last());
    } else {
        assert(s.update(i, e).drop_last() =~= s.drop_last().update(i, e));
        lemma_total_update(s.drop_last(), i, e);
    }
}

/// Removing a row subtracts its candidate count from the running total.
pub proof fn lemma_total_remove(s: Seq<PossEntry>, i: int)
    requires
        0 <= i < s.len(),
    ensures
        total_from(s.remove(i)) + s[i].cands@.len() == total_from(s),
    decreases s.len(),
{
    if i == s.len() - 1 {
        assert(s.remove(i) =~= s.drop_last());
    } else {
        assert(s.remove(i).drop_last() =~= s.drop_last().remove(i));
        assert(s.remove(i).last() == s.last());
        lemma_total_remove(s.drop_last(), i);
    }
}

/// Appending a row adds its candidate count to the running total.
pub proof fn lemma_total_push(s: Seq<PossEntry>, e: PossEntry)
    ensures
        total_from(s.push(e)) == total_from(s) + e.cands@.len(),
{
    assert(s.push(e).drop_last() =~= s);
}

/// One more row taken adds that row's candidate count.
pub proof fn lemma_total_take_step(s: Seq<PossEntry>, i: int)
    requires
        0 <= i < s.len(),
    ensures
        total_from(s.take(i + 1)) == total_from(s.take(i)) + s[i].cands@.len(),
{
    assert(s.take(i + 1).drop_last() =~= s.take(i));
    assert(s.take(i + 1).last() == s[i]);
}

/// A prefix never sums to more than the whole.
pub proof fn lemma_total_take_bound(s: Seq<PossEntry>, i: int)
    requires
        0 <= i <= s.len(),
    ensures
        total_from(s.take(i)) <= total_from(s),
    decreases s.len() - i,
{
    if i == s.len() {
        assert(s.take(i) =~= s);
    } else {
        lemma_total_take_step(s, i);
        lemma_total_take_bound(s, i + 1);
    }
}

} // verus!
