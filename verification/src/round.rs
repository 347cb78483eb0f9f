//! A saved ceremony round: the guessed pairs, the subset still live, and the
//! count of correct pairs it was scored with.

use vstd::prelude::*;

use crate::contestant::same_pair;
use crate::contestant::spec_contains_pair;
use crate::contestant::contains_pair;
use crate::contestant::ContestantPair;
use crate::contestant::Player;
use crate::gamestrategy::SolverError;

verus! {

/// One ceremony submission kept for probabilistic inference. `num_correct`
/// counts how many of the originally guessed, not-yet-confirmed pairs are
/// true matches; the live subset shrinks as deductions rule guesses out.
#[derive(Debug)]
pub struct SavedRound {
    pub guesses: Vec<ContestantPair>,
    pub in_consideration: Vec<usize>,
    pub num_correct: usize,
    pub round_id: u32,
}

/// Advancing a prefix by one element extends its filtered image by that
/// element exactly when the element passes.
pub proof fn lemma_filter_take_step<A>(s: Seq<A>, pred: spec_fn(A) -> bool, t: int)
    requires
        0 <= t < s.len(),
    ensures
        s.take(t + 1).filter(pred) == if pred(s[t]) {
            s.take(t).filter(pred).push(s[t])
        } else {
            s.take(t).filter(pred)
        },
{
    reveal_with_fuel(Seq::<_>::filter, 2);
    assert(s.take(t + 1).drop_last() =~= s.take(t));
    assert(s.take(t + 1).last() == s[t]);
}

/// Appending an element extends the filtered image by that element exactly
/// when the element passes.
pub proof fn lemma_filter_push<A>(s: Seq<A>, pred: spec_fn(A) -> bool, x: A)
    ensures
        s.push(x).filter(pred) == if pred(x) {
            s.filter(pred).push(x)
        } else {
            s.filter(pred)
        },
{
    reveal_with_fuel(Seq::<_>::filter, 2);
    assert(s.push(x).drop_last() =~= s);
    assert(s.push(x).last() == x);
}

/// Filters by pointwise-equal predicates agree.
pub proof fn lemma_filter_equiv<A>(s: Seq<A>, p: spec_fn(A) -> bool, q: spec_fn(A) -> bool)
    requires
        forall|x: A| #[trigger] p(x) == q(x),
    ensures
        s.filter(p) == s.filter(q),
    decreases s.len(),
{
    reveal_with_fuel(Seq::<_>::filter, 2);
    if s.len() != 0 {
        lemma_filter_equiv(s.drop_last(), p, q);
        assert(p(s.last()) == q(s.last()));
    }
}

/// Filtering twice is filtering once by the conjunction.
pub proof fn lemma_filter_compose<A>(s: Seq<A>, p: spec_fn(A) -> bool, q: spec_fn(A) -> bool)
    ensures
        s.filter(p).filter(q) == s.filter(|x: A| p(x) && q(x)),
    decreases s.len(),
{
    reveal_with_fuel(Seq::<_>::filter, 2);
    if s.len() == 0 {
    } else {
        let rest = s.drop_last();
        let x = s.last();
        lemma_filter_compose(rest, p, q);
        if p(x) {
            lemma_filter_push(rest.filter(p), q, x);
        }
    }
}

/// What filtering keeps: elements of the original that pass the predicate,
/// without introducing duplicates.
pub proof fn lemma_filter_props<A>(s: Seq<A>, pred: spec_fn(A) -> bool)
    ensures
        s.no_duplicates() ==> s.filter(pred).no_duplicates(),
        forall|x: A| #[trigger] s.filter(pred).contains(x) ==> s.contains(x) && pred(x),
    decreases s.len(),
{
    reveal_with_fuel(Seq::<_>::filter, 2);
    if s.len() > 0 {
        let rest = s.drop_last();
        let x = s.last();
        lemma_filter_props(rest, pred);
        assert forall|y: A| #[trigger] s.filter(pred).contains(y) implies s.contains(y) && pred(
            y,
        ) by {
            if pred(x) {
                assert(s.filter(pred) == rest.filter(pred).push(x));
                if y == x {
                    assert(s.contains(y)) by {
                        assert(s[s.len() - 1] == y);
                    }
                } else {
                    let t = choose|t: int|
                        0 <= t < s.filter(pred).len() && s.filter(pred)[t] == y;
                    assert(rest.filter(pred).contains(y)) by {
                        assert(rest.filter(pred)[t] == y);
                    }
                    assert(rest.contains(y));
                    let u = choose|u: int| 0 <= u < rest.len() && rest[u] == y;
                    assert(s[u] == y);
                }
            } else {
                assert(s.filter(pred) == rest.filter(pred));
                assert(rest.contains(y));
                let u = choose|u: int| 0 <= u < rest.len() && rest[u] == y;
                assert(s[u] == y);
            }
        }
        if s.no_duplicates() {
            assert(rest.no_duplicates());
            if pred(x) {
                assert(!rest.filter(pred).contains(x)) by {
                    if rest.filter(pred).contains(x) {
                        assert(rest.contains(x));
                        let u = choose|u: int| 0 <= u < rest.len() && rest[u] == x;
                        assert(s[u] == s[s.len() - 1]);
                    }
                }
                let out = rest.filter(pred).push(x);
                assert forall|t1: int, t2: int|
                    0 <= t1 < out.len() && 0 <= t2 < out.len() && t1 != t2 implies out[t1]
                    != out[t2] by {
                    if t1 < out.len() - 1 && t2 < out.len() - 1 {
                    } else {
                        let tt = if t1 < out.len() - 1 {
                            t1
                        } else {
                            t2
                        };
                        if out[tt] == x {
                            assert(rest.filter(pred).contains(x)) by {
                                assert(rest.filter(pred)[tt] == x);
                            }
                        }
                    }
                }
            }
        }
    }
}

/// Whatever passes the predicate survives filtering.
pub proof fn lemma_filter_keeps<A>(s: Seq<A>, pred: spec_fn(A) -> bool, x: A)
    requires
        s.contains(x),
        pred(x),
    ensures
        s.filter(pred).contains(x),
    decreases s.len(),
{
    reveal_with_fuel(Seq::<_>::filter, 2);
    if s.len() > 0 {
        let rest = s.drop_last();
        if x == s.last() {
            assert(s.filter(pred) == rest.filter(pred).push(x));
            assert(s.filter(pred)[s.filter(pred).len() - 1] == x);
        } else {
            let t = choose|t: int| 0 <= t < s.len() && s[t] == x;
            assert(rest[t] == x);
            lemma_filter_keeps(rest, pred, x);
            let u = choose|u: int| 0 <= u < rest.filter(pred).len() && rest.filter(pred)[u] == x;
            if pred(s.last()) {
                assert(s.filter(pred)[u] == x);
            }
        }
    }
}

/// Structural equality of rounds, with guessed pairs compared as unordered
/// pairs.
pub open spec fn round_like(a: SavedRound, b: SavedRound) -> bool {
    &&& a.round_id == b.round_id
    &&& a.num_correct == b.num_correct
    &&& a.in_consideration@ == b.in_consideration@
    &&& a.guesses@.len() == b.guesses@.len()
    &&& forall|t: int| 0 <= t < a.guesses@.len() ==> same_pair(a.guesses@[t], b.guesses@[t])
}

impl PartialEq for SavedRound {
    fn eq(&self, other: &Self) -> bool {
        if self.round_id != other.round_id || self.num_correct != other.num_correct {
            return false;
        }
        if self.in_consideration.len() != other.in_consideration.len() {
            return false;
        }
        if self.guesses.len() != other.guesses.len() {
            return false;
        }
        let mut t: usize = 0;
        let n = self.in_consideration.len();
        while t < n
            invariant
                t <= n,
                n == self.in_consideration@.len(),
                n == other.in_consideration@.len(),
                forall|u: int| 0 <= u < t ==> self.in_consideration@[u] == other.in_consideration@[u],
            decreases n - t,
        {
            if self.in_consideration[t] != other.in_consideration[t] {
                return false;
            }
            t += 1;
        }
        let m = self.guesses.len();
        let mut u: usize = 0;
        while u < m
            invariant
                u <= m,
                m == self.guesses@.len(),
                m == other.guesses@.len(),
                forall|w: int| 0 <= w < u ==> same_pair(self.guesses@[w], other.guesses@[w]),
            decreases m - u,
        {
            if !self.guesses[u].eq(&other.guesses[u]) {
                return false;
            }
            u += 1;
        }
        proof {
            assert(self.in_consideration@ =~= other.in_consideration@);
        }
        true
    }
}

impl vstd::std_specs::cmp::PartialEqSpecImpl for SavedRound {
    open spec fn obeys_eq_spec() -> bool {
        true
    }

    open spec fn eq_spec(&self, other: &Self) -> bool {
        round_like(*self, *other)
    }
}

impl Clone for SavedRound {
    fn clone(&self) -> (r: Self)
        ensures
            round_like(*self, r),
            r.in_consideration@ == self.in_consideration@,
            r.guesses@.len() == self.guesses@.len(),
            forall|t: int|
                0 <= t < self.guesses@.len() ==> (#[trigger] r.guesses@[t]).id_a()
                    == self.guesses@[t].id_a() && r.guesses@[t].id_b() == self.guesses@[t].id_b(),
            self.wf() ==> r.wf(),
    {
        let mut guesses: Vec<ContestantPair> = Vec::new();
        let n = self.guesses.len();
        let mut i: usize = 0;
        while i < n
            invariant
                i <= n,
                n == self.guesses@.len(),
                guesses@.len() == i,
                forall|t: int|
                    0 <= t < i ==> (#[trigger] guesses@[t]).id_a() == self.guesses@[t].id_a()
                        && guesses@[t].id_b() == self.guesses@[t].id_b(),
            decreases n - i,
        {
            guesses.push(self.guesses[i].clone());
            i += 1;
        }
        let mut in_consideration: Vec<usize> = Vec::new();
        let m = self.in_consideration.len();
        let mut t: usize = 0;
        while t < m
            invariant
                t <= m,
                m == self.in_consideration@.len(),
                in_consideration@.len() == t,
                forall|u: int|
                    0 <= u < t ==> (#[trigger] in_consideration@[u]) == self.in_consideration@[u],
            decreases m - t,
        {
            in_consideration.push(self.in_consideration[t]);
            t += 1;
        }
        let r = SavedRound {
            guesses,
            in_consideration,
            num_correct: self.num_correct,
            round_id: self.round_id,
        };
        proof {
            assert(r.in_consideration@ =~= self.in_consideration@);
        }
        r
    }
}

impl SavedRound {
    /// The pairs this round originally guessed, in submission order.
    pub open spec fn guess_seq(self) -> Seq<ContestantPair> {
        self.guesses@
    }

    /// The positions of the guesses still live, in increasing order.
    pub open spec fn live_idx(self) -> Seq<int> {
        self.in_consideration@.map_values(|u: usize| u as int)
    }

    /// The guesses still live, in submission order.
    pub open spec fn live(self) -> Seq<ContestantPair> {
        Seq::new(self.live_idx().len(), |t: int| self.guess_seq()[self.live_idx()[t]])
    }

    /// Live positions are in range and strictly increasing.
    pub open spec fn wf(self) -> bool {
        &&& forall|t: int|
            0 <= t < self.in_consideration@.len() ==> (#[trigger] self.in_consideration@[t])
                < self.guesses@.len()
        &&& forall|t1: int, t2: int|
            0 <= t1 < t2 < self.in_consideration@.len() ==> self.in_consideration@[t1]
                < self.in_consideration@[t2]
    }

    /// A fresh round: every guess is live.
    pub fn new(guesses: Vec<ContestantPair>, num_correct: usize, round_id: u32) -> (r: SavedRound)
        ensures
            r.wf(),
            r.guess_seq() == guesses@,
            r.live() == guesses@,
            r.num_correct == num_correct,
            r.round_id == round_id,
    {
        let mut in_consideration: Vec<usize> = Vec::new();
        let n = guesses.len();
        let mut i: usize = 0;
        while i < n
            invariant
                i <= n,
                in_consideration@.len() == i,
                forall|t: int| 0 <= t < i ==> (#[trigger] in_consideration@[t]) == t,
            decreases n - i,
        {
            in_consideration.push(i);
            i += 1;
        }
        let r = SavedRound { in_consideration, num_correct, guesses, round_id };
        proof {
            assert(r.live() =~= r.guess_seq());
        }
        r
    }

    /// How many guesses are still live.
    pub fn num_consideration(&self) -> (r: usize)
        ensures
            r == self.live().len(),
    {
        self.in_consideration.len()
    }

    /// How many guesses are still live.
    pub fn guesses_left(&self) -> (r: usize)
        ensures
            r == self.live().len(),
    {
        self.in_consideration.len()
    }

    /// The originally guessed pairs, live or not.
    pub fn guesses(&self) -> (r: &Vec<ContestantPair>)
        ensures
            r@ == self.guess_seq(),
    {
        &self.guesses
    }

    /// The first `num` live guesses. More than the live count cannot be
    /// picked.
    pub fn pick_from_round(&self, num: usize) -> (r: Result<Vec<ContestantPair>, SolverError>)
        requires
            self.wf(),
        ensures
            match r {
                Ok(v) => num <= self.live().len() && v@.len() == num && forall|t: int|
                    0 <= t < num ==> (#[trigger] v@[t]).id_a() == self.live()[t].id_a() && v@[t].id_b()
                        == self.live()[t].id_b(),
                Err(e) => e == SolverError::NotEnoughGuesses && num > self.live().len(),
            },
    {
        if num > self.in_consideration.len() {
            return Err(SolverError::NotEnoughGuesses);
        }
        let mut picked: Vec<ContestantPair> = Vec::new();
        let mut t: usize = 0;
        while t < num
            invariant
                t <= num,
                num <= self.in_consideration@.len(),
                self.wf(),
                picked@.len() == t,
                forall|u: int|
                    0 <= u < t ==> (#[trigger] picked@[u]).id_a() == self.live()[u].id_a()
                        && picked@[u].id_b() == self.live()[u].id_b(),
            decreases num - t,
        {
            let idx = self.in_consideration[t];
            picked.push(self.guesses[idx].clone());
            t += 1;
        }
        Ok(picked)
    }

    /// Strike every live guess that equals one of the given pairs.
    #[verifier::loop_isolation(false)]
    pub fn eliminate_guesses(&mut self, pairs: &Vec<ContestantPair>)
        requires
            old(self).wf(),
        ensures
            final(self).wf(),
            final(self).guess_seq() == old(self).guess_seq(),
            final(self).num_correct == old(self).num_correct,
            final(self).round_id == old(self).round_id,
            final(self).live() == old(self).live().filter(
                |p: ContestantPair| !spec_contains_pair(pairs@, p),
            ),
    {
        let ghost pred = |p: ContestantPair| !spec_contains_pair(pairs@, p);
        let n = self.in_consideration.len();
        let mut kept: Vec<usize> = Vec::new();
        let mut t: usize = 0;
        proof {
            assert(old(self).live().take(0).filter(pred) =~= Seq::<ContestantPair>::empty());
        }
        while t < n
            invariant
                t <= n,
                kept@.map_values(|u: usize| u as int).map_values(
                    |u: int| old(self).guess_seq()[u],
                ) == old(self).live().take(t as int).filter(pred),
                forall|u: int|
                    0 <= u < kept@.len() ==> (#[trigger] kept@[u]) < old(self).guess_seq().len(),
                forall|u: int|
                    0 <= u < kept@.len() ==> old(self).live_idx().take(t as int).contains(
                        (#[trigger] kept@[u]) as int,
                    ),
                forall|u1: int, u2: int|
                    0 <= u1 < u2 < kept@.len() ==> kept@[u1] < kept@[u2],
                self == old(self),
            decreases n - t,
        {
            let ghost kept0 = kept@;
            let idx = self.in_consideration[t];
            proof {
                lemma_filter_take_step(old(self).live(), pred, t as int);
                assert(old(self).live()[t as int] == old(self).guess_seq()[idx as int]);
            }
            if !contains_pair(pairs, &self.guesses[idx]) {
                kept.push(idx);
                proof {
                    assert(old(self).live_idx().take(t as int + 1).contains(idx as int)) by {
                        assert(old(self).live_idx().take(t as int + 1)[t as int] == idx as int);
                    }
                    assert forall|u1: int, u2: int|
                        0 <= u1 < u2 < kept@.len() implies kept@[u1] < kept@[u2] by {
                        if u2 == kept@.len() - 1 {
                            let w = choose|w: int|
                                0 <= w < t && old(self).live_idx().take(t as int)[w] == kept0[u1] as int;
                            assert(old(self).in_consideration@[w] == kept0[u1]);
                            assert(old(self).in_consideration@[w]
                                < old(self).in_consideration@[t as int]);
                        }
                    }
                    assert(kept@.map_values(|u: usize| u as int).map_values(
                        |u: int| old(self).guess_seq()[u],
                    ) =~= old(self).live().take(t as int + 1).filter(pred));
                    assert forall|u: int|
                        0 <= u < kept@.len() implies old(self).live_idx().take(
                        t as int + 1,
                    ).contains((#[trigger] kept@[u]) as int) by {
                        if u < kept@.len() - 1 {
                            let w = choose|w: int|
                                0 <= w < t && old(self).live_idx().take(t as int)[w] == kept0[u] as int;
                            assert(old(self).live_idx().take(t as int + 1)[w] == kept0[u] as int);
                        }
                    }
                }
            } else {
                proof {
                    assert forall|u: int|
                        0 <= u < kept@.len() implies old(self).live_idx().take(
                        t as int + 1,
                    ).contains((#[trigger] kept@[u]) as int) by {
                        let w = choose|w: int|
                            0 <= w < t && old(self).live_idx().take(t as int)[w] == kept@[u] as int;
                        assert(old(self).live_idx().take(t as int + 1)[w] == kept@[u] as int);
                    }
                }
            }
            t += 1;
        }
        proof {
            assert(old(self).live().take(n as int) =~= old(self).live());
        }
        self.in_consideration = kept;
        proof {
            assert(self.live() =~= old(self).live().filter(pred));
        }
    }

    /// Strike every live guess that names the given contestant.
    #[verifier::loop_isolation(false)]
    pub fn eliminate_player(&mut self, player: &Player)
        requires
            old(self).wf(),
        ensures
            final(self).wf(),
            final(self).guess_seq() == old(self).guess_seq(),
            final(self).num_correct == old(self).num_correct,
            final(self).round_id == old(self).round_id,
            final(self).live() == old(self).live().filter(
                |p: ContestantPair| !p.spec_has_id(player.id as int),
            ),
    {
        let ghost pred = |p: ContestantPair| !p.spec_has_id(player.id as int);
        let n = self.in_consideration.len();
        let mut kept: Vec<usize> = Vec::new();
        let mut t: usize = 0;
        proof {
            assert(old(self).live().take(0).filter(pred) =~= Seq::<ContestantPair>::empty());
        }
        while t < n
            invariant
                t <= n,
                kept@.map_values(|u: usize| u as int).map_values(
                    |u: int| old(self).guess_seq()[u],
                ) == old(self).live().take(t as int).filter(pred),
                forall|u: int|
                    0 <= u < kept@.len() ==> (#[trigger] kept@[u]) < old(self).guess_seq().len(),
                forall|u: int|
                    0 <= u < kept@.len() ==> old(self).live_idx().take(t as int).contains(
                        (#[trigger] kept@[u]) as int,
                    ),
                forall|u1: int, u2: int|
                    0 <= u1 < u2 < kept@.len() ==> kept@[u1] < kept@[u2],
                self == old(self),
            decreases n - t,
        {
            let ghost kept0 = kept@;
            let idx = self.in_consideration[t];
            proof {
                lemma_filter_take_step(old(self).live(), pred, t as int);
                assert(old(self).live()[t as int] == old(self).guess_seq()[idx as int]);
            }
            if !self.guesses[idx].has_player(player) {
                kept.push(idx);
                proof {
                    assert(old(self).live_idx().take(t as int + 1).contains(idx as int)) by {
                        assert(old(self).live_idx().take(t as int + 1)[t as int] == idx as int);
                    }
                    assert forall|u1: int, u2: int|
                        0 <= u1 < u2 < kept@.len() implies kept@[u1] < kept@[u2] by {
                        if u2 == kept@.len() - 1 {
                            let w = choose|w: int|
                                0 <= w < t && old(self).live_idx().take(t as int)[w] == kept0[u1] as int;
                            assert(old(self).in_consideration@[w] == kept0[u1]);
                            assert(old(self).in_consideration@[w]
                                < old(self).in_consideration@[t as int]);
                        }
                    }
                    assert(kept@.map_values(|u: usize| u as int).map_values(
                        |u: int| old(self).guess_seq()[u],
                    ) =~= old(self).live().take(t as int + 1).filter(pred));
                    assert forall|u: int|
                        0 <= u < kept@.len() implies old(self).live_idx().take(
                        t as int + 1,
                    ).contains((#[trigger] kept@[u]) as int) by {
                        if u < kept@.len() - 1 {
                            let w = choose|w: int|
                                0 <= w < t && old(self).live_idx().take(t as int)[w] == kept0[u] as int;
                            assert(old(self).live_idx().take(t as int + 1)[w] == kept0[u] as int);
                        }
                    }
                }
            } else {
                proof {
                    assert forall|u: int|
                        0 <= u < kept@.len() implies old(self).live_idx().take(
                        t as int + 1,
                    ).contains((#[trigger] kept@[u]) as int) by {
                        let w = choose|w: int|
                            0 <= w < t && old(self).live_idx().take(t as int)[w] == kept@[u] as int;
                        assert(old(self).live_idx().take(t as int + 1)[w] == kept@[u] as int);
                    }
                }
            }
            t += 1;
        }
        proof {
            assert(old(self).live().take(n as int) =~= old(self).live());
        }
        self.in_consideration = kept;
        proof {
            assert(self.live() =~= old(self).live().filter(pred));
        }
    }

    /// Whether this round's success ratio strictly beats the other's, as the
    /// exact rational comparison of correct count over live count.
    pub fn beats(&self, other: &SavedRound) -> (r: bool)
        ensures
            r == (self.num_correct * other.live().len() > other.num_correct * self.live().len()),
    {
        let a = self.num_correct as u128;
        let b = other.in_consideration.len() as u128;
        let c = other.num_correct as u128;
        let d = self.in_consideration.len() as u128;
        proof {
            assert(a * b <= u128::MAX && c * d <= u128::MAX) by (nonlinear_arith)
                requires
                    a <= u64::MAX && b <= u64::MAX && c <= u64::MAX && d <= u64::MAX,
            ;
        }
        let lhs = a * b;
        let rhs = c * d;
        lhs > rhs
    }
}

} // verus!
