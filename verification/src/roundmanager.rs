//! The ordered collection of saved ceremony rounds, with probability-based
//! selection and pruning.
//!
//! A round's probability is the ratio of its correct count to its live count.
//! No floating point is involved: every comparison of ratios is done exactly,
//! by cross-multiplying the integer counts.

use vstd::prelude::*;

use crate::contestant::spec_contains_pair;
use crate::contestant::ContestantPair;
use crate::contestant::Player;
use crate::possibility::PossibilityMap;
use crate::round::lemma_filter_compose;
use crate::round::lemma_filter_equiv;
use crate::round::round_like;
use crate::round::SavedRound;

verus! {

/// Saved rounds in arrival order, plus a counter of how often a round guess
/// was sent to the booth (diagnostic only).
pub struct RoundManager {
    pub rounds: Vec<SavedRound>,
    pub times_round_used: usize,
    pub last_round_id: u32,
}

/// Whether `a`'s ratio of correct to live guesses strictly exceeds `b`'s, as
/// the exact rational comparison.
pub open spec fn ratio_gt(a: SavedRound, b: SavedRound) -> bool {
    a.num_correct * b.live().len() > b.num_correct * a.live().len()
}

/// Strictly better than strictly better is strictly better.
pub proof fn lemma_ratio_gt_trans(a: SavedRound, b: SavedRound, c: SavedRound)
    requires
        ratio_gt(a, b),
        ratio_gt(b, c),
    ensures
        ratio_gt(a, c),
{
    let ac = a.num_correct as int;
    let am = a.live().len() as int;
    let bc = b.num_correct as int;
    let bm = b.live().len() as int;
    let cc = c.num_correct as int;
    let cm = c.live().len() as int;
    assert(ac * cm > cc * am) by (nonlinear_arith)
        requires
            ac * bm > bc * am,
            bc * cm > cc * bm,
            ac >= 0 && am >= 0 && bc >= 0 && bm >= 0 && cc >= 0 && cm >= 0,
    ;
}

/// The index that scanning the rounds settles on: start at the front and move
/// only for a strictly better ratio.
pub open spec fn best_index_upto(s: Seq<SavedRound>, n: int) -> int
    decreases n,
{
    if n <= 1 {
        0
    } else {
        let prev = best_index_upto(s, n - 1);
        if ratio_gt(s[n - 1], s[prev]) {
            n - 1
        } else {
            prev
        }
    }
}

/// The index of the most effective round of a non-empty sequence.
pub open spec fn best_index(s: Seq<SavedRound>) -> int {
    best_index_upto(s, s.len() as int)
}

/// The settled index is in range and no round strictly beats the round there.
pub proof fn lemma_best_index_upto(s: Seq<SavedRound>, n: int)
    requires
        1 <= n <= s.len(),
    ensures
        0 <= best_index_upto(s, n) < n,
        forall|j: int| 0 <= j < n ==> !ratio_gt(#[trigger] s[j], s[best_index_upto(s, n)]),
    decreases n,
{
    if n > 1 {
        lemma_best_index_upto(s, n - 1);
        let prev = best_index_upto(s, n - 1);
        if ratio_gt(s[n - 1], s[prev]) {
            assert forall|j: int| 0 <= j < n implies !ratio_gt(#[trigger] s[j], s[n - 1]) by {
                if j < n - 1 && ratio_gt(s[j], s[n - 1]) {
                    lemma_ratio_gt_trans(s[j], s[n - 1], s[prev]);
                }
            }
        }
    }
}

/// One rendered round: its id, then its live guesses.
pub open spec fn spec_round_str(r: SavedRound) -> Seq<char> {
    ("saved round #")@ + crate::utils::spec_digits(r.round_id as nat) + (" -- \n")@
        + crate::utils::spec_pairs_str(r.live()) + ("\n")@
}

/// All rounds rendered in order.
pub open spec fn spec_rounds_str(s: Seq<SavedRound>) -> Seq<char>
    decreases s.len(),
{
    if s.len() == 0 {
        Seq::empty()
    } else {
        spec_rounds_str(s.drop_last()) + spec_round_str(s.last())
    }
}

/// One more round rendered appends its own block.
pub proof fn lemma_rounds_str_take_step(s: Seq<SavedRound>, t: int)
    requires
        0 <= t < s.len(),
    ensures
        spec_rounds_str(s.take(t + 1)) == spec_rounds_str(s.take(t)) + spec_round_str(s[t]),
{
    assert(s.take(t + 1).drop_last() =~= s.take(t));
    assert(s.take(t + 1).last() == s[t]);
}

impl RoundManager {
    /// Every stored round is internally consistent.
    pub open spec fn wf(self) -> bool {
        forall|i: int| 0 <= i < self.rounds@.len() ==> (#[trigger] self.rounds@[i]).wf()
    }

    /// The most effective round: the one at the settled index.
    pub open spec fn best_round(self) -> SavedRound {
        self.rounds@[best_index(self.rounds@)]
    }

    pub fn new() -> (r: RoundManager)
        ensures
            r.wf(),
            r.rounds@.len() == 0,
            r.times_round_used == 0,
            r.last_round_id == 0,
    {
        RoundManager { rounds: Vec::new(), times_round_used: 0, last_round_id: 0 }
    }

    /// The live round with the best probability; earlier rounds win ties.
    pub fn most_eff(&self) -> (r: Option<&SavedRound>)
        ensures
            match r {
                Some(b) => self.rounds@.len() > 0 && *b == self.best_round() && forall|j: int|
                    0 <= j < self.rounds@.len() ==> !ratio_gt(#[trigger] self.rounds@[j], *b),
                None => self.rounds@.len() == 0,
            },
    {
        let n = self.rounds.len();
        if n == 0 {
            return None;
        }
        let mut best: usize = 0;
        let mut i: usize = 1;
        while i < n
            invariant
                n == self.rounds@.len(),
                best < i <= n,
                best == best_index_upto(self.rounds@, i as int),
            decreases n - i,
        {
            if self.rounds[i].beats(&self.rounds[best]) {
                best = i;
            }
            i += 1;
        }
        proof {
            lemma_best_index_upto(self.rounds@, n as int);
        }
        Some(&self.rounds[best])
    }

    /// Record a fresh round under the next id. The id counter stops at its
    /// cap, which only affects diagnostics.
    pub fn add_round(&mut self, guesses: Vec<ContestantPair>, num_correct: usize)
        requires
            old(self).wf(),
        ensures
            final(self).wf(),
            final(self).rounds@.len() == old(self).rounds@.len() + 1,
            forall|i: int|
                0 <= i < old(self).rounds@.len() ==> final(self).rounds@[i] == old(self).rounds@[i],
            final(self).rounds@.last().wf(),
            final(self).rounds@.last().guess_seq() == guesses@,
            final(self).rounds@.last().live() == guesses@,
            final(self).rounds@.last().num_correct == num_correct,
            final(self).last_round_id == (if old(self).last_round_id < u32::MAX {
                old(self).last_round_id + 1
            } else {
                u32::MAX as int
            }),
            final(self).rounds@.last().round_id == final(self).last_round_id,
            final(self).times_round_used == old(self).times_round_used,
    {
        let id = if self.last_round_id < u32::MAX {
            self.last_round_id + 1
        } else {
            u32::MAX
        };
        self.last_round_id = id;
        self.rounds.push(SavedRound::new(guesses, num_correct, id));
    }

    /// One guess from the most effective round, if any round still has one.
    /// Asking a round with nothing live yields `None`; that state is a
    /// bookkeeping failure the caller reports.
    pub fn best_guess(&mut self) -> (r: Option<ContestantPair>)
        requires
            old(self).wf(),
        ensures
            final(self).wf(),
            final(self).rounds@ == old(self).rounds@,
            final(self).last_round_id == old(self).last_round_id,
            match r {
                Some(p) => old(self).rounds@.len() > 0 && old(self).best_round().live().len() > 0
                    && p.id_a() == old(self).best_round().live()[0].id_a() && p.id_b() == old(
                    self,
                ).best_round().live()[0].id_b() && final(self).times_round_used == (
                if old(self).times_round_used < usize::MAX {
                    old(self).times_round_used + 1
                } else {
                    old(self).times_round_used as int
                }),
                None => (old(self).rounds@.len() == 0 || old(self).best_round().live().len() == 0)
                    && final(self).times_round_used == old(self).times_round_used,
            },
    {
        let picked: Option<ContestantPair> = match self.most_eff() {
            Some(round) => {
                proof {
                    lemma_best_index_upto(self.rounds@, self.rounds@.len() as int);
                    assert(self.rounds@[best_index(self.rounds@)].wf());
                }
                if round.guesses_left() == 0 {
                    None
                } else {
                    match round.pick_from_round(1) {
                        Ok(mut v) => v.pop(),
                        Err(_) => None,
                    }
                }
            },
            None => None,
        };
        if picked.is_some() {
            if self.times_round_used < usize::MAX {
                self.times_round_used = self.times_round_used + 1;
            }
        }
        picked
    }

    /// The round recorded last.
    pub fn latest(&self) -> (r: Option<&SavedRound>)
        ensures
            match r {
                Some(b) => self.rounds@.len() > 0 && *b == self.rounds@[self.rounds@.len() - 1],
                None => self.rounds@.len() == 0,
            },
    {
        let n = self.rounds.len();
        if n == 0 {
            None
        } else {
            Some(&self.rounds[n - 1])
        }
    }

    /// The round recorded last, open to mutation.
    pub fn latest_mut(&mut self) -> (r: Option<&mut SavedRound>)
        ensures
            old(self).rounds@.len() == 0 ==> r is None && *final(self) == *old(self),
            old(self).rounds@.len() != 0 ==> r is Some && *r.unwrap() == old(self).rounds@.last()
                && final(self).rounds@ == old(self).rounds@.update(
                old(self).rounds@.len() - 1,
                *final(r.unwrap()),
            ) && final(self).times_round_used == old(self).times_round_used
                && final(self).last_round_id == old(self).last_round_id,
    {
        let n = self.rounds.len();
        if n == 0 {
            None
        } else {
            Some(&mut self.rounds[n - 1])
        }
    }

    /// Whether querying the most effective round's best guess beats blindly
    /// guessing a partner for the most constrained contestant: true exactly
    /// when the round's probability strictly exceeds one over the smallest
    /// candidate count.
    pub fn should_use_round(&mut self, possibilities: &PossibilityMap) -> (r: bool)
        requires
            old(self).wf(),
            possibilities.wf(),
            old(self).rounds@.len() > 0 ==> possibilities.key_ids().len() > 0,
        ensures
            *final(self) == *old(self),
            r == (old(self).rounds@.len() > 0 && exists|k: nat|
                #![auto]
                possibilities.spec_is_min_count(k) && old(self).best_round().num_correct * k > old(
                    self,
                ).best_round().live().len()),
    {
        let best = match self.most_eff() {
            None => {
                return false;
            },
            Some(round) => round,
        };
        let c = best.num_correct;
        let m = best.guesses_left();
        let off_limits: Vec<Player> = Vec::new();
        match possibilities.most_constrained(&off_limits) {
            Some((_, k)) => {
                proof {
                    assert((c as u128) * (k as u128) <= u128::MAX) by (nonlinear_arith)
                        requires
                            c <= u64::MAX && k <= u64::MAX,
                    ;
                }
                let r = (c as u128) * (k as u128) > (m as u128);
                proof {
                    assert forall|k2: nat|
                        #![auto]
                        possibilities.spec_is_min_count(k2) implies k2 == k by {
                        let q = choose|q: int|
                            #[trigger] possibilities.is_key(q) && possibilities.cand_count(q) == k2;
                        assert(possibilities.cand_count(q) >= k);
                    }
                    assert(possibilities.spec_is_min_count(k as nat));
                }
                r
            },
            None => {
                proof {
                    assert(possibilities.is_key(possibilities.key_ids()[0]));
                    assert(false);
                }
                false
            },
        }
    }

    /// Digest a confirmed match: every round loses the live guesses naming
    /// either contestant, and its correct count drops by one, floored at
    /// zero. The drop is unconditional, whether or not the confirmed pair was
    /// among the round's guesses; that is this solver's accounting rule.
    #[verifier::loop_isolation(false)]
    pub fn perfect_match_found(&mut self, pair: &ContestantPair)
        requires
            old(self).wf(),
        ensures
            final(self).wf(),
            final(self).rounds@.len() == old(self).rounds@.len(),
            forall|i: int|
                0 <= i < old(self).rounds@.len() ==> {
                    let r0 = old(self).rounds@[i];
                    let r1 = #[trigger] final(self).rounds@[i];
                    &&& r1.guess_seq() == r0.guess_seq()
                    &&& r1.round_id == r0.round_id
                    &&& r1.num_correct == (if r0.num_correct > 0 {
                        r0.num_correct - 1
                    } else {
                        0
                    })
                    &&& r1.live() == r0.live().filter(
                        |p: ContestantPair|
                            !p.spec_has_id(pair.id_a()) && !p.spec_has_id(pair.id_b()),
                    )
                },
            final(self).times_round_used == old(self).times_round_used,
            final(self).last_round_id == old(self).last_round_id,
    {
        let ghost target = |p: ContestantPair|
            !p.spec_has_id(pair.id_a()) && !p.spec_has_id(pair.id_b());
        let n = self.rounds.len();
        let mut i: usize = 0;
        while i < n
            invariant
                i <= n,
                self.rounds@.len() == n,
                self.times_round_used == old(self).times_round_used,
                self.last_round_id == old(self).last_round_id,
                forall|t: int| i <= t < n ==> self.rounds@[t] == old(self).rounds@[t],
                forall|t: int|
                    0 <= t < i ==> {
                        let r0 = old(self).rounds@[t];
                        let r1 = #[trigger] self.rounds@[t];
                        &&& r1.wf()
                        &&& r1.guess_seq() == r0.guess_seq()
                        &&& r1.round_id == r0.round_id
                        &&& r1.num_correct == (if r0.num_correct > 0 {
                            r0.num_correct - 1
                        } else {
                            0
                        })
                        &&& r1.live() == r0.live().filter(target)
                    },
            decreases n - i,
        {
            let ghost sprev = self.rounds@;
            let mut r = self.rounds.remove(i);
            let ghost r0 = r;
            if r.num_correct > 0 {
                r.num_correct = r.num_correct - 1;
            }
            r.eliminate_player(pair.get_a());
            r.eliminate_player(pair.get_b());
            proof {
                let pa = |p: ContestantPair| !p.spec_has_id(pair.id_a());
                let pb = |p: ContestantPair| !p.spec_has_id(pair.id_b());
                lemma_filter_compose(r0.live(), pa, pb);
                lemma_filter_equiv(r0.live(), |x: ContestantPair| pa(x) && pb(x), target);
                assert(r.live() == r0.live().filter(target));
            }
            self.rounds.insert(i, r);
            proof {
                assert(self.rounds@ =~= sprev.update(i as int, r));
            }
            i += 1;
        }
    }

    /// Broadcast an elimination: every round drops the live guesses equal to
    /// one of the given pairs.
    #[verifier::loop_isolation(false)]
    pub fn eliminate_guesses(&mut self, guesses: Vec<ContestantPair>)
        requires
            old(self).wf(),
        ensures
            final(self).wf(),
            final(self).rounds@.len() == old(self).rounds@.len(),
            forall|i: int|
                0 <= i < old(self).rounds@.len() ==> {
                    let r0 = old(self).rounds@[i];
                    let r1 = #[trigger] final(self).rounds@[i];
                    &&& r1.guess_seq() == r0.guess_seq()
                    &&& r1.round_id == r0.round_id
                    &&& r1.num_correct == r0.num_correct
                    &&& r1.live() == r0.live().filter(
                        |p: ContestantPair| !spec_contains_pair(guesses@, p),
                    )
                },
            final(self).times_round_used == old(self).times_round_used,
            final(self).last_round_id == old(self).last_round_id,
    {
        let ghost target = |p: ContestantPair| !spec_contains_pair(guesses@, p);
        let n = self.rounds.len();
        let mut i: usize = 0;
        while i < n
            invariant
                i <= n,
                self.rounds@.len() == n,
                self.times_round_used == old(self).times_round_used,
                self.last_round_id == old(self).last_round_id,
                forall|t: int| i <= t < n ==> self.rounds@[t] == old(self).rounds@[t],
                forall|t: int|
                    0 <= t < i ==> {
                        let r0 = old(self).rounds@[t];
                        let r1 = #[trigger] self.rounds@[t];
                        &&& r1.wf()
                        &&& r1.guess_seq() == r0.guess_seq()
                        &&& r1.round_id == r0.round_id
                        &&& r1.num_correct == r0.num_correct
                        &&& r1.live() == r0.live().filter(target)
                    },
            decreases n - i,
        {
            let ghost sprev = self.rounds@;
            let mut r = self.rounds.remove(i);
            r.eliminate_guesses(&guesses);
            self.rounds.insert(i, r);
            proof {
                assert(self.rounds@ =~= sprev.update(i as int, r));
            }
            i += 1;
        }
    }

    /// Discard the rounds that carry no further information: nothing live, or
    /// a correct count of zero. Returns how many went.
    #[verifier::loop_isolation(false)]
    pub fn prune_rounds(&mut self) -> (removed: usize)
        requires
            old(self).wf(),
        ensures
            final(self).wf(),
            final(self).rounds@ == old(self).rounds@.filter(
                |r: SavedRound| r.live().len() > 0 && r.num_correct != 0,
            ),
            removed + final(self).rounds@.len() == old(self).rounds@.len(),
            final(self).times_round_used == old(self).times_round_used,
            final(self).last_round_id == old(self).last_round_id,
    {
        let ghost keep = |r: SavedRound| r.live().len() > 0 && r.num_correct != 0;
        let ghost orig = self.rounds@;
        let n = self.rounds.len();
        let mut kept: Vec<SavedRound> = Vec::new();
        let mut i: usize = 0;
        proof {
            assert(orig.take(0).filter(keep) =~= Seq::<SavedRound>::empty());
            assert(self.rounds@ =~= orig.skip(0));
        }
        while i < n
            invariant
                i <= n,
                n == orig.len(),
                self.rounds@ == orig.skip(i as int),
                self.times_round_used == old(self).times_round_used,
                self.last_round_id == old(self).last_round_id,
                kept@ == orig.take(i as int).filter(keep),
                kept@.len() <= i,
                forall|t: int| 0 <= t < kept@.len() ==> (#[trigger] kept@[t]).wf(),
            decreases n - i,
        {
            proof {
                crate::round::lemma_filter_take_step(orig, keep, i as int);
                assert(self.rounds@[0] == orig[i as int]);
            }
            let r = self.rounds.remove(0);
            let live = r.guesses_left();
            if live > 0 && r.num_correct != 0 {
                kept.push(r);
                proof {
                    assert(kept@ =~= orig.take(i as int + 1).filter(keep));
                }
            }
            proof {
                assert(self.rounds@ =~= orig.skip(i as int + 1));
            }
            i += 1;
        }
        proof {
            assert(orig.take(n as int) =~= orig);
        }
        let removed = n - kept.len();
        self.rounds = kept;
        removed
    }

    /// The saved rounds rendered for tracing: each round's id and its live
    /// guesses, one pair per line. Mirrors `spec_rounds_str`.
    #[verifier::loop_isolation(false)]
    #[verifier::rlimit(100)]
    pub fn pretty_string(&self) -> (r: String)
        requires
            self.wf(),
        ensures
            r@ == spec_rounds_str(self.rounds@),
    {
        let mut round_str = String::new();
        let n = self.rounds.len();
        let mut i: usize = 0;
        proof {
            assert(round_str@ =~= spec_rounds_str(self.rounds@.take(0)));
        }
        while i < n
            invariant
                i <= n,
                round_str@ == spec_rounds_str(self.rounds@.take(i as int)),
            decreases n - i,
        {
            let round = &self.rounds[i];
            let mut line = String::new();
            line.append("saved round #");
            let rid = crate::utils::uint_string(round.round_id);
            line.append(rid.as_str());
            line.append(" -- \n");
            let m = round.in_consideration.len();
            let mut j: usize = 0;
            let ghost header = line@;
            proof {
                assert(round.live().take(0) =~= Seq::<ContestantPair>::empty());
                assert(line@ =~= header + crate::utils::spec_pairs_str(round.live().take(0)));
            }
            while j < m
                invariant
                    j <= m,
                    m == round.live().len(),
                    line@ == header + crate::utils::spec_pairs_str(round.live().take(j as int)),
                decreases m - j,
            {
                proof {
                    crate::utils::lemma_pairs_str_take_step(round.live(), j as int);
                }
                let idx = round.in_consideration[j];
                let pair = &round.guesses[idx];
                proof {
                    assert(*pair == round.live()[j as int]);
                }
                line.append("Contestant ");
                let ida = crate::utils::id_string(pair.get_a().id);
                line.append(ida.as_str());
                line.append(" (");
                line.append(pair.get_a().name.as_str());
                line.append(")");
                line.append(", ");
                line.append("Contestant ");
                let idb = crate::utils::id_string(pair.get_b().id);
                line.append(idb.as_str());
                line.append(" (");
                line.append(pair.get_b().name.as_str());
                line.append(")");
                line.append("\n");
                proof {
                    assert(line@ =~= header + crate::utils::spec_pairs_str(round.live().take(j as int + 1)));
                }
                j += 1;
            }
            line.append("\n");
            proof {
                assert(round.live().take(m as int) =~= round.live());
                lemma_rounds_str_take_step(self.rounds@, i as int);
                assert(line@ =~= spec_round_str(self.rounds@[i as int]));
            }
            round_str.append(line.as_str());
            proof {
                assert(round_str@ =~= spec_rounds_str(self.rounds@.take(i as int + 1)));
            }
            i += 1;
        }
        proof {
            assert(self.rounds@.take(n as int) =~= self.rounds@);
        }
        round_str
    }

    /// Whether an equal round is stored.
    pub fn contains(&self, round: &SavedRound) -> (r: bool)
        ensures
            r == exists|i: int|
                0 <= i < self.rounds@.len() && round_like(#[trigger] self.rounds@[i], *round),
    {
        let n = self.rounds.len();
        let mut i: usize = 0;
        while i < n
            invariant
                i <= n,
                n == self.rounds@.len(),
                forall|t: int| 0 <= t < i ==> !round_like(#[trigger] self.rounds@[t], *round),
            decreases n - i,
        {
            if self.rounds[i].eq(round) {
                return true;
            }
            i += 1;
        }
        false
    }
}

} // verus!
