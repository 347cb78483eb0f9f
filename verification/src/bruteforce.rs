//! The deduction strategy: track which pairs are still possible, record
//! count feedback as rounds, and propose pairings and booth queries.

use vstd::prelude::*;

use crate::contestant::clone_pairs;
use crate::contestant::pair_ids;
use crate::contestant::player_ids;
use crate::contestant::ref_ids;
use crate::contestant::same_pair;
use crate::contestant::spec_contains_pair;
use crate::contestant::ContestantPair;
use crate::contestant::Player;
use crate::gamestrategy::Feedback;
use crate::gamestrategy::GameStrategy;
use crate::gamestrategy::SolverError;
use crate::possibility::has_id;
use crate::possibility::PossibilityMap;
use crate::round::lemma_filter_equiv;
use crate::roundmanager::RoundManager;
use vstd::set_lib::lemma_len_subset;
use vstd::set_lib::lemma_subset_equality;

verus! {

/// A duplicate-free sequence whose values all occur in another duplicate-free
/// sequence is no longer than it.
pub proof fn lemma_unique_subset_len(s: Seq<int>, t: Seq<int>)
    requires
        s.no_duplicates(),
        t.no_duplicates(),
        forall|i: int| 0 <= i < s.len() ==> t.contains(#[trigger] s[i]),
    ensures
        s.len() <= t.len(),
{
    broadcast use vstd::seq_lib::seq_to_set_is_finite;

    s.unique_seq_to_set();
    t.unique_seq_to_set();
    assert forall|x: int| s.to_set().contains(x) implies t.to_set().contains(x) by {
        let i = choose|i: int| 0 <= i < s.len() && s[i] == x;
        assert(t.contains(s[i]));
    }
    lemma_len_subset(s.to_set(), t.to_set());
}

/// Equal-length duplicate-free sequences, one's values all among the other's,
/// hold exactly the same values.
pub proof fn lemma_unique_cover(s: Seq<int>, t: Seq<int>)
    requires
        s.no_duplicates(),
        t.no_duplicates(),
        forall|i: int| 0 <= i < s.len() ==> t.contains(#[trigger] s[i]),
        s.len() == t.len(),
    ensures
        s.to_set() == t.to_set(),
{
    broadcast use vstd::seq_lib::seq_to_set_is_finite;

    s.unique_seq_to_set();
    t.unique_seq_to_set();
    assert forall|x: int| s.to_set().contains(x) implies t.to_set().contains(x) by {
        let i = choose|i: int| 0 <= i < s.len() && s[i] == x;
        assert(t.contains(s[i]));
    }
    lemma_subset_equality(s.to_set(), t.to_set());
}

/// The answer when one contestant is asked for an unclaimed partner.
#[derive(Debug, PartialEq)]
pub enum PairPlayerResult {
    /// A pair with a partner that no committed pair has claimed.
    Paired(ContestantPair),
    /// Every remaining candidate is claimed: the attempt cannot be extended.
    Contradiction,
}

/// One level of the backtracking search: a contestant and the candidates not
/// yet tried for them in this attempt.
struct SearchFrame {
    player: Player,
    cands: Vec<Player>,
}

/// The size left in the search: each frame weighs its untried candidates,
/// scaled so that one level outweighs everything below it.
spec fn search_measure(s: Seq<SearchFrame>, base: nat, depth: nat) -> int
    decreases s.len(),
{
    if s.len() == 0 {
        0
    } else {
        search_measure(s.drop_last(), base, depth) + (s.last().cands@.len() + 1) * vstd::arithmetic::power::pow(
            base as int,
            (depth - s.len()) as nat,
        )
    }
}

/// The measure is never negative.
proof fn lemma_measure_nonneg(s: Seq<SearchFrame>, base: nat, depth: nat)
    requires
        base >= 1,
    ensures
        search_measure(s, base, depth) >= 0,
    decreases s.len(),
{
    if s.len() > 0 {
        lemma_measure_nonneg(s.drop_last(), base, depth);
        let w = vstd::arithmetic::power::pow(base as int, (depth - s.len()) as nat);
        vstd::arithmetic::power::lemma_pow_positive(base as int, (depth - s.len()) as nat);
        let c = s.last().cands@.len() as int;
        assert((c + 1) * w >= 0) by (nonlinear_arith)
            requires
                c >= 0,
                w >= 1,
        ;
    }
}

/// Dropping the top frame shrinks the measure.
proof fn lemma_measure_pop(s: Seq<SearchFrame>, base: nat, depth: nat)
    requires
        s.len() >= 1,
        base >= 2,
    ensures
        search_measure(s.drop_last(), base, depth) < search_measure(s, base, depth),
{
    let w = vstd::arithmetic::power::pow(base as int, (depth - s.len()) as nat);
    vstd::arithmetic::power::lemma_pow_positive(base as int, (depth - s.len()) as nat);
    let c = s.last().cands@.len() as int;
    assert((c + 1) * w >= 1) by (nonlinear_arith)
        requires
            c >= 0,
            w >= 1,
    ;
}

/// Taking one candidate off the top frame frees exactly one weight unit.
proof fn lemma_measure_shrink(s: Seq<SearchFrame>, f2: SearchFrame, base: nat, depth: nat)
    requires
        s.len() >= 1,
        f2.cands@.len() + 1 == s.last().cands@.len(),
    ensures
        search_measure(s.drop_last().push(f2), base, depth) + vstd::arithmetic::power::pow(
            base as int,
            (depth - s.len()) as nat,
        ) == search_measure(s, base, depth),
{
    let w = vstd::arithmetic::power::pow(base as int, (depth - s.len()) as nat);
    let s2 = s.drop_last().push(f2);
    assert(s2.drop_last() =~= s.drop_last());
    assert(s2.len() == s.len() && s2.last() == f2);
    let c = f2.cands@.len() as int;
    assert((c + 1) * w + w == (c + 2) * w) by (nonlinear_arith);
}

/// A fresh frame weighs less than one unit of the level above it.
#[verifier::spinoff_prover]
proof fn lemma_measure_push(s: Seq<SearchFrame>, g: SearchFrame, base: nat, depth: nat)
    requires
        base >= 2,
        depth >= s.len() + 1,
        g.cands@.len() + 2 <= base,
    ensures
        search_measure(s.push(g), base, depth) < search_measure(s, base, depth)
            + vstd::arithmetic::power::pow(base as int, (depth - s.len()) as nat),
{
    let e1 = (depth - s.len() - 1) as nat;
    let e = (depth - s.len()) as nat;
    let w1 = vstd::arithmetic::power::pow(base as int, e1);
    let w = vstd::arithmetic::power::pow(base as int, e);
    assert(s.push(g).drop_last() =~= s);
    assert(search_measure(s.push(g), base, depth) == search_measure(s, base, depth) + (
    g.cands@.len() + 1) * w1);
    vstd::arithmetic::power::lemma_pow_positive(base as int, e1);
    assert(e == e1 + 1);
    vstd::arithmetic::power::lemma_pow_adds(base as int, e1, 1);
    vstd::arithmetic::power::lemma_pow1(base as int);
    assert(w == vstd::arithmetic::power::pow(base as int, e1) * vstd::arithmetic::power::pow(
        base as int,
        1,
    ));
    let c = g.cands@.len() as int;
    assert((c + 1) * w1 < w1 * base) by (nonlinear_arith)
        requires
            c + 2 <= base,
            w1 >= 1,
    ;
}

/// A key's candidate list is never longer than the key list.
proof fn lemma_cand_bound(m: PossibilityMap, k: int)
    requires
        m.wf(),
        m.is_key(k),
    ensures
        m.cand_count(k) <= m.key_ids().len(),
{
    m.lemma_idx_of(k);
    let i = m.idx_of(k);
    assert forall|t: int|
        0 <= t < m.cands_of(k).len() implies m.key_ids().contains(
        #[trigger] m.cands_of(k)[t],
    ) by {
        assert(m.linked(i, t));
    }
    lemma_unique_subset_len(m.cands_of(k), m.key_ids());
}

/// The frame at `i` is consistent with the map and with the pairs committed
/// below it: its contestant and untried candidates are unclaimed keys, and
/// every candidate is still viable for it.
spec fn frame_ok(m: PossibilityMap, committed: Seq<ContestantPair>, f: SearchFrame, i: int) -> bool {
    &&& m.is_key(f.player.id as int)
    &&& !pair_ids(committed.take(i)).contains(f.player.id as int)
    &&& player_ids(f.cands@).no_duplicates()
    &&& forall|t: int|
        0 <= t < f.cands@.len() ==> m.has_cand(
            f.player.id as int,
            #[trigger] player_ids(f.cands@)[t],
        ) && !pair_ids(committed.take(i)).contains(player_ids(f.cands@)[t])
}

/// Every frame on the stack is consistent, and each committed pair was made
/// for the frame at its own level.
spec fn stack_ok(m: PossibilityMap, stack: Seq<SearchFrame>, committed: Seq<ContestantPair>) -> bool {
    &&& forall|i: int| 0 <= i < stack.len() ==> frame_ok(m, committed, #[trigger] stack[i], i)
    &&& forall|i: int|
        0 <= i < committed.len() && i < stack.len() ==> (#[trigger] committed[i]).id_a() == stack[i].player.id as int
}

/// The committed pairs are viable, disjoint, and drawn from the unresolved
/// keys.
spec fn committed_ok(m: PossibilityMap, committed: Seq<ContestantPair>) -> bool {
    &&& pair_ids(committed).no_duplicates()
    &&& forall|t: int|
        0 <= t < pair_ids(committed).len() ==> m.is_key(#[trigger] pair_ids(committed)[t])
    &&& forall|i: int|
        0 <= i < committed.len() ==> m.has_cand(
            (#[trigger] committed[i]).id_a(),
            committed[i].id_b(),
        )
}

/// What a successful pairing guarantees: the confirmed matches first, then
/// disjoint, still-viable pairs, together covering every contestant exactly
/// once.
pub open spec fn valid_full_pairing(s: BruteForce, v: Seq<ContestantPair>) -> bool {
    &&& v.len() == s.contestants@.len() / 2
    &&& v.len() >= s.right_matches@.len()
    &&& pair_ids(v).no_duplicates()
    &&& pair_ids(v).to_set() == s.cids().to_set()
    &&& forall|i: int|
        0 <= i < s.right_matches@.len() ==> (#[trigger] v[i]).id_a()
            == s.right_matches@[i].id_a() && v[i].id_b() == s.right_matches@[i].id_b()
    &&& forall|i: int|
        s.right_matches@.len() <= i < v.len() ==> s.possibilities.has_cand(
            (#[trigger] v[i]).id_a(),
            v[i].id_b(),
        )
}

/// In a full pairing of this state, every contestant id is named by some
/// pair.
proof fn lemma_pairing_covers(s: BruteForce, v: Seq<ContestantPair>, x: int)
    requires
        valid_full_pairing(s, v),
        s.cids().contains(x),
    ensures
        exists|j: int| 0 <= j < v.len() && (#[trigger] v[j]).spec_has_id(x),
{
    assert(s.cids().to_set().contains(x));
    assert(pair_ids(v).contains(x));
    let t = choose|t: int| 0 <= t < pair_ids(v).len() && pair_ids(v)[t] == x;
    let j = t / 2;
    assert(v[j].spec_has_id(x));
}

/// In a full pairing, an unresolved contestant's pair is one of the searched
/// ones, hence still viable in the map.
proof fn lemma_pairing_viable(s: BruteForce, v: Seq<ContestantPair>, x: int, j: int)
    requires
        s.wf(),
        valid_full_pairing(s, v),
        s.possibilities.is_key(x),
        0 <= j < v.len(),
        v[j].spec_has_id(x),
    ensures
        s.possibilities.has_cand(x, partner_of(v, x)),
        partner_of(v, x) != x,
{
    lemma_partner_at(v, x, j);
    if j < s.right_matches@.len() {
        assert(s.mids()[2 * j] == v[j].id_a());
        assert(s.mids()[2 * j + 1] == v[j].id_b());
        assert(false);
    }
    let y = partner_of(v, x);
    if v[j].id_a() == x {
        assert(s.possibilities.has_cand(x, y));
    } else {
        assert(s.possibilities.has_cand(y, x));
        s.possibilities.lemma_sym(y, x);
    }
    s.possibilities.lemma_sym(x, y);
}

/// Level `i` of the search agrees with the pairing `v` on everything
/// committed below it, and `v`'s choice for its own contestant is still
/// untried there.
spec fn reaches(
    v: Seq<ContestantPair>,
    stack: Seq<SearchFrame>,
    committed: Seq<ContestantPair>,
    i: int,
) -> bool {
    &&& 0 <= i < stack.len()
    &&& forall|t: int| 0 <= t < i ==> spec_contains_pair(v, #[trigger] committed[t])
    &&& player_ids(stack[i].cands@).contains(partner_of(v, stack[i].player.id as int))
}

/// Every full pairing the map still admits has a live branch point on the
/// stack: the search can still turn towards it.
spec fn all_reachable(s: BruteForce, stack: Seq<SearchFrame>, committed: Seq<ContestantPair>) -> bool {
    forall|v: Seq<ContestantPair>| #[trigger]
        valid_full_pairing(s, v) ==> exists|i: int| #[trigger] reaches(v, stack, committed, i)
}

/// The state change of confirming `pair` as a perfect match: both contestants
/// leave the possibility map, the pair joins the confirmed list, and every
/// round drops its guesses naming either contestant along with one credit of
/// its correct count, floored at zero.
pub open spec fn confirmed_transition(pre: BruteForce, post: BruteForce, pair: ContestantPair) -> bool {
    let a = pair.id_a();
    let b = pair.id_b();
    &&& pre.possibilities.is_key(a)
    &&& pre.possibilities.is_key(b)
    &&& a != b
    &&& post.contestants@ == pre.contestants@
    &&& forall|k: int| #[trigger]
        post.possibilities.is_key(k) == (pre.possibilities.is_key(k) && k != a && k != b)
    &&& forall|x: int, y: int| #[trigger]
        post.possibilities.has_cand(x, y) == (pre.possibilities.has_cand(x, y) && x != a && x != b
            && y != a && y != b)
    &&& post.right_matches@.len() == pre.right_matches@.len() + 1
    &&& forall|i: int|
        0 <= i < pre.right_matches@.len() ==> post.right_matches@[i] == pre.right_matches@[i]
    &&& post.right_matches@.last().id_a() == a
    &&& post.right_matches@.last().id_b() == b
    &&& post.round_manager.rounds@.len() == pre.round_manager.rounds@.len()
    &&& forall|i: int|
        0 <= i < pre.round_manager.rounds@.len() ==> {
            let r0 = pre.round_manager.rounds@[i];
            let r1 = #[trigger] post.round_manager.rounds@[i];
            &&& r1.guess_seq() == r0.guess_seq()
            &&& r1.round_id == r0.round_id
            &&& r1.num_correct == (if r0.num_correct > 0 {
                r0.num_correct - 1
            } else {
                0
            })
            &&& r1.live() == r0.live().filter(
                |p: ContestantPair| !p.spec_has_id(a) && !p.spec_has_id(b),
            )
        }
}

/// The id matched with `x` in the pairing `v`: the other side of the pair
/// naming `x`.
pub open spec fn partner_of(v: Seq<ContestantPair>, x: int) -> int {
    let i = choose|i: int| 0 <= i < v.len() && (#[trigger] v[i]).spec_has_id(x);
    if v[i].id_a() == x {
        v[i].id_b()
    } else {
        v[i].id_a()
    }
}

/// With duplicate-free ids, at most one pair of `v` names `x`.
proof fn lemma_container_unique(v: Seq<ContestantPair>, x: int, j1: int, j2: int)
    requires
        pair_ids(v).no_duplicates(),
        0 <= j1 < v.len(),
        0 <= j2 < v.len(),
        v[j1].spec_has_id(x),
        v[j2].spec_has_id(x),
    ensures
        j1 == j2,
{
    if j1 != j2 {
        let p1: int = if v[j1].id_a() == x {
            2 * j1
        } else {
            2 * j1 + 1
        };
        let p2: int = if v[j2].id_a() == x {
            2 * j2
        } else {
            2 * j2 + 1
        };
        assert(pair_ids(v)[p1] == x);
        assert(pair_ids(v)[p2] == x);
        assert(false);
    }
}

/// The partner of `x` can be read off any pair of `v` that names `x`.
proof fn lemma_partner_at(v: Seq<ContestantPair>, x: int, j: int)
    requires
        pair_ids(v).no_duplicates(),
        0 <= j < v.len(),
        v[j].spec_has_id(x),
    ensures
        partner_of(v, x) == (if v[j].id_a() == x {
            v[j].id_b()
        } else {
            v[j].id_a()
        }),
{
    let i = choose|i: int| 0 <= i < v.len() && (#[trigger] v[i]).spec_has_id(x);
    lemma_container_unique(v, x, i, j);
}

/// In a full pairing, a contestant not named by a set of `v`'s own pairs has
/// a partner not named by that set either.
proof fn lemma_partner_outside(
    v: Seq<ContestantPair>,
    committed: Seq<ContestantPair>,
    x: int,
    j: int,
)
    requires
        pair_ids(v).no_duplicates(),
        0 <= j < v.len(),
        v[j].spec_has_id(x),
        forall|t: int| 0 <= t < committed.len() ==> spec_contains_pair(v, #[trigger] committed[t]),
        !pair_ids(committed).contains(x),
    ensures
        !pair_ids(committed).contains(partner_of(v, x)),
{
    lemma_partner_at(v, x, j);
    let y = partner_of(v, x);
    if pair_ids(committed).contains(y) {
        let u = choose|u: int| 0 <= u < pair_ids(committed).len() && pair_ids(committed)[u] == y;
        let t = u / 2;
        assert(committed[t].spec_has_id(y));
        assert(spec_contains_pair(v, committed[t]));
        let jt = choose|jt: int| 0 <= jt < v.len() && same_pair(#[trigger] v[jt], committed[t]);
        assert(v[jt].spec_has_id(y));
        assert(v[j].spec_has_id(y));
        lemma_container_unique(v, y, jt, j);
        assert(v[j].spec_has_id(x));
        assert(committed[t].spec_has_id(x));
        let px: int = if committed[t].id_a() == x {
            2 * t
        } else {
            2 * t + 1
        };
        assert(pair_ids(committed)[px] == x);
    }
}

/// Whether the guess list names the unordered pair (x, y).
pub open spec fn guess_hits(g: Seq<ContestantPair>, x: int, y: int) -> bool {
    exists|t: int|
        0 <= t < g.len() && (((#[trigger] g[t]).id_a() == x && g[t].id_b() == y) || (g[t].id_a()
            == y && g[t].id_b() == x))
}

/// Whether the guess list holds a pair equal to `p` that the map had not yet
/// ruled out.
pub open spec fn newly_hit(m: PossibilityMap, g: Seq<ContestantPair>, p: ContestantPair) -> bool {
    exists|t: int|
        0 <= t < g.len() && same_pair(#[trigger] g[t], p) && !m.spec_is_excluded(
            g[t].id_a(),
            g[t].id_b(),
        )
}

/// Every live guess of every saved round is still viable in the possibility
/// map. This holds along the strategy's own cycle, where rounds are recorded
/// from proposed pairings and pruned in step with every deduction; each
/// mutating operation states how it carries the property forward.
pub open spec fn rounds_viable(s: BruteForce) -> bool {
    forall|i: int, t: int|
        0 <= i < s.round_manager.rounds@.len() && 0 <= t < s.round_manager.rounds@[i].live().len()
            ==> s.possibilities.has_cand(
            (#[trigger] s.round_manager.rounds@[i].live()[t]).id_a(),
            s.round_manager.rounds@[i].live()[t].id_b(),
        )
}

/// Whether the strategy would rather query a saved round's guess than a
/// candidate of the most constrained contestant: exactly when the most
/// effective round's probability strictly exceeds one over the smallest
/// remaining candidate count.
pub open spec fn prefers_round(s: BruteForce) -> bool {
    s.round_manager.rounds@.len() > 0 && exists|k: nat|
        #![auto]
        s.possibilities.spec_is_min_count(k) && s.round_manager.best_round().num_correct * k
            > s.round_manager.best_round().live().len()
}

/// The state change of ruling `pair` out: it leaves both candidate sets (if
/// it was still viable) and every round's live guesses; nothing else moves.
pub open spec fn excluded_transition(pre: BruteForce, post: BruteForce, pair: ContestantPair) -> bool {
    let a = pair.id_a();
    let b = pair.id_b();
    &&& pre.cids().contains(a)
    &&& pre.cids().contains(b)
    &&& post.contestants@ == pre.contestants@
    &&& post.right_matches@ == pre.right_matches@
    &&& post.possibilities.spec_is_excluded(a, b)
    &&& post.possibilities.key_ids() == pre.possibilities.key_ids()
    &&& forall|x: int, y: int| #[trigger]
        post.possibilities.has_cand(x, y) == (pre.possibilities.has_cand(x, y) && !(x == a && y
            == b) && !(x == b && y == a))
    &&& if pre.possibilities.spec_is_excluded(a, b) {
        post == pre
    } else {
        &&& post.round_manager.rounds@.len() == pre.round_manager.rounds@.len()
        &&& forall|i: int|
            0 <= i < pre.round_manager.rounds@.len() ==> {
                let r0 = pre.round_manager.rounds@[i];
                let r1 = #[trigger] post.round_manager.rounds@[i];
                &&& r1.guess_seq() == r0.guess_seq()
                &&& r1.num_correct == r0.num_correct
                &&& r1.round_id == r0.round_id
                &&& r1.live() == r0.live().filter(|p: ContestantPair| !same_pair(p, pair))
            }
        &&& post.round_manager.times_round_used == pre.round_manager.times_round_used
    }
}

/// The strategy state: the contestants, the matches confirmed by the booth,
/// the possibility map, and the saved ceremony rounds.
pub struct BruteForce {
    pub contestants: Vec<Player>,
    pub right_matches: Vec<ContestantPair>,
    pub possibilities: PossibilityMap,
    pub round_manager: RoundManager,
}

impl BruteForce {
    /// The contestant ids, in arrival order.
    pub open spec fn cids(self) -> Seq<int> {
        player_ids(self.contestants@)
    }

    /// The ids of the confirmed matches, flattened.
    pub open spec fn mids(self) -> Seq<int> {
        pair_ids(self.right_matches@)
    }

    /// The state's consistency condition: contestants are distinct and evenly
    /// many; the map is well-formed and its keys are exactly the contestants
    /// not yet confirmed; confirmed matches are disjoint pairs of
    /// contestants.
    pub open spec fn wf(self) -> bool {
        &&& self.cids().no_duplicates()
        &&& self.contestants@.len() >= 2
        &&& self.contestants@.len() % 2 == 0
        &&& self.possibilities.wf()
        &&& self.mids().no_duplicates()
        &&& forall|t: int| 0 <= t < self.mids().len() ==> self.cids().contains(#[trigger] self.mids()[t])
        &&& forall|t: int|
            0 <= t < self.mids().len() ==> !self.possibilities.is_key(#[trigger] self.mids()[t])
        &&& forall|k: int| #[trigger] self.possibilities.is_key(k) ==> self.cids().contains(k)
        &&& self.possibilities.key_ids().len() + self.mids().len() == self.cids().len()
        &&& self.round_manager.wf()
    }

    /// A fresh strategy over the given contestants: nothing confirmed, no
    /// rounds, and every pairing of distinct contestants still possible.
    pub fn initialize(contestants: Vec<&Player>) -> (r: BruteForce)
        requires
            contestants@.len() >= 2,
            contestants@.len() % 2 == 0,
            contestants@.len() * contestants@.len() <= usize::MAX,
            ref_ids(contestants@).no_duplicates(),
        ensures
            r.wf(),
            player_ids(r.contestants@) == ref_ids(contestants@),
            r.right_matches@.len() == 0,
            r.round_manager.rounds@.len() == 0,
            rounds_viable(r),
            r.possibilities.key_ids() == ref_ids(contestants@),
            forall|x: int, y: int| #[trigger]
                r.possibilities.has_cand(x, y) == (ref_ids(contestants@).contains(x) && ref_ids(
                    contestants@,
                ).contains(y) && x != y),
            forall|k: int| #[trigger]
                r.possibilities.is_key(k) ==> r.possibilities.cand_count(k) == contestants@.len()
                    - 1,
            r.possibilities.total() == contestants@.len() * (contestants@.len() - 1),
    {
        let n = contestants.len();
        let mut owned: Vec<Player> = Vec::new();
        let mut i: usize = 0;
        while i < n
            invariant
                i <= n,
                n == contestants@.len(),
                owned@.len() == i,
                forall|t: int| 0 <= t < i ==> (#[trigger] owned@[t]).id == contestants@[t].id,
            decreases n - i,
        {
            owned.push(contestants[i].clone());
            i += 1;
        }
        proof {
            assert(player_ids(owned@) =~= ref_ids(contestants@));
        }
        let possibilities = PossibilityMap::initialize(&owned);
        let r = BruteForce {
            contestants: owned,
            right_matches: Vec::new(),
            possibilities,
            round_manager: RoundManager::new(),
        };
        proof {
            assert(r.mids() =~= Seq::<int>::empty());
        }
        r
    }

    /// Whether the pair can no longer be a match: a side is confirmed, or the
    /// pair has been ruled out. Both players must be contestants of this
    /// game.
    pub fn already_guessed(&self, p1: &Player, p2: &Player) -> (r: bool)
        requires
            self.wf(),
            self.cids().contains(p1.id as int),
            self.cids().contains(p2.id as int),
        ensures
            r == self.possibilities.spec_is_excluded(p1.id as int, p2.id as int),
    {
        if !self.possibilities.contains_key(p1) || !self.possibilities.contains_key(p2) {
            return true;
        }
        match self.possibilities.candidates_of(p1) {
            Some(cands) => !has_id(cands, p2.id),
            None => true,
        }
    }

    /// Total undetermined pair-candidates left in the possibility map.
    pub fn poss_left(&self) -> (r: usize)
        requires
            self.wf(),
        ensures
            r == self.possibilities.total() / 2,
    {
        self.possibilities.remaining_count()
    }

    /// The unresolved contestant with the fewest candidates left, skipping
    /// the given players.
    pub fn highest_prob_player(&self, filtered: &Vec<Player>) -> (r: Option<Player>)
        requires
            self.wf(),
        ensures
            match r {
                Some(p) => self.possibilities.is_key(p.id as int) && !player_ids(
                    filtered@,
                ).contains(p.id as int) && forall|q: int|
                    self.possibilities.is_key(q) && !player_ids(filtered@).contains(q)
                        ==> #[trigger] self.possibilities.cand_count(q)
                        >= self.possibilities.cand_count(p.id as int),
                None => forall|q: int| #[trigger]
                    self.possibilities.is_key(q) ==> player_ids(filtered@).contains(q),
            },
    {
        match self.possibilities.most_constrained(filtered) {
            Some((p, _)) => Some(p),
            None => None,
        }
    }

    /// The players of `possible_pairs` that are not named in `off_limits`,
    /// in order.
    #[verifier::loop_isolation(false)]
    pub fn filter_possibilities(possible_pairs: &Vec<Player>, off_limits: &Vec<Player>) -> (r: Vec<
        Player,
    >)
        ensures
            player_ids(r@) == player_ids(possible_pairs@).filter(
                |c: int| !player_ids(off_limits@).contains(c),
            ),
    {
        let ghost pred = |c: int| !player_ids(off_limits@).contains(c);
        let mut out: Vec<Player> = Vec::new();
        let n = possible_pairs.len();
        let mut i: usize = 0;
        proof {
            assert(player_ids(possible_pairs@).take(0).filter(pred) =~= Seq::<int>::empty());
            assert(player_ids(out@) =~= Seq::<int>::empty());
        }
        while i < n
            invariant
                i <= n,
                n == possible_pairs@.len(),
                player_ids(out@) == player_ids(possible_pairs@).take(i as int).filter(pred),
            decreases n - i,
        {
            proof {
                crate::round::lemma_filter_take_step(
                    player_ids(possible_pairs@),
                    pred,
                    i as int,
                );
            }
            if !has_id(off_limits, possible_pairs[i].id) {
                out.push(possible_pairs[i].clone());
                proof {
                    assert(player_ids(out@) =~= player_ids(possible_pairs@).take(
                        i as int + 1,
                    ).filter(pred));
                }
            }
            i += 1;
        }
        proof {
            assert(player_ids(possible_pairs@).take(n as int) =~= player_ids(possible_pairs@));
        }
        out
    }

    /// Try to pair the given unresolved contestant with a candidate that is
    /// not off limits; the first such candidate wins.
    pub fn pair_player(&self, player: &Player, off_limits: &Vec<Player>) -> (r: PairPlayerResult)
        requires
            self.wf(),
            self.possibilities.is_key(player.id as int),
        ensures
            match r {
                PairPlayerResult::Paired(p) => p.id_a() == player.id as int
                    && self.possibilities.has_cand(player.id as int, p.id_b()) && !player_ids(
                    off_limits@,
                ).contains(p.id_b()),
                PairPlayerResult::Contradiction => forall|c: int| #[trigger]
                    self.possibilities.has_cand(player.id as int, c) ==> player_ids(
                        off_limits@,
                    ).contains(c),
            },
    {
        let cands = match self.possibilities.candidates_of(player) {
            Some(v) => v,
            None => {
                proof {
                    assert(false);
                }
                return PairPlayerResult::Contradiction;
            },
        };
        let n = cands.len();
        let mut i: usize = 0;
        while i < n
            invariant
                i <= n,
                n == cands@.len(),
                self.wf(),
                self.possibilities.is_key(player.id as int),
                player_ids(cands@) == self.possibilities.cands_of(player.id as int),
                forall|t: int|
                    0 <= t < i ==> player_ids(off_limits@).contains(
                        #[trigger] player_ids(cands@)[t],
                    ),
            decreases n - i,
        {
            if !has_id(off_limits, cands[i].id) {
                let c = cands[i].clone();
                proof {
                    assert(self.possibilities.cands_of(player.id as int)[i as int]
                        == c.id as int);
                    assert(self.possibilities.has_cand(player.id as int, c.id as int));
                    self.possibilities.lemma_sym(player.id as int, c.id as int);
                }
                return PairPlayerResult::Paired(ContestantPair::new(player.clone(), c));
            }
            i += 1;
        }
        proof {
            assert forall|c: int| #[trigger]
                self.possibilities.has_cand(player.id as int, c) implies player_ids(
                off_limits@,
            ).contains(c) by {
                let t = choose|t: int|
                    0 <= t < self.possibilities.cands_of(player.id as int).len()
                        && self.possibilities.cands_of(player.id as int)[t] == c;
                assert(player_ids(off_limits@).contains(player_ids(cands@)[t]));
            }
        }
        PairPlayerResult::Contradiction
    }

    /// Rule the pair out: strike it from the possibility map (if not already
    /// settled) and from every saved round's live guesses. Unknown players
    /// are rejected.
    pub fn remove_guess(&mut self, pair: &ContestantPair) -> (r: Result<(), SolverError>)
        requires
            old(self).wf(),
        ensures
            final(self).wf(),
            rounds_viable(*old(self)) ==> rounds_viable(*final(self)),
            match r {
                Ok(()) => excluded_transition(*old(self), *final(self), *pair),
                Err(e) => {
                    &&& e == SolverError::UnknownPlayer
                    &&& !(old(self).cids().contains(pair.id_a()) && old(self).cids().contains(
                        pair.id_b(),
                    ))
                    &&& *final(self) == *old(self)
                },
            },
    {
        let known_a = has_id(&self.contestants, pair.get_a().id);
        let known_b = has_id(&self.contestants, pair.get_b().id);
        if !known_a || !known_b {
            return Err(SolverError::UnknownPlayer);
        }
        if self.possibilities.is_excluded(pair) {
            proof {
                if self.possibilities.has_cand(pair.id_a(), pair.id_b()) {
                    self.possibilities.lemma_sym(pair.id_a(), pair.id_b());
                }
                if self.possibilities.has_cand(pair.id_b(), pair.id_a()) {
                    self.possibilities.lemma_sym(pair.id_b(), pair.id_a());
                }
            }
            return Ok(());
        }
        self.possibilities.exclude_pair(pair);
        let mut elim: Vec<ContestantPair> = Vec::new();
        elim.push(pair.clone());
        let ghost elimview = elim@;
        let ghost rounds0 = self.round_manager.rounds@;
        self.round_manager.eliminate_guesses(elim);
        proof {
            assert forall|x: ContestantPair| #[trigger]
                crate::contestant::spec_contains_pair(elimview, x) == same_pair(x, *pair) by {
                if same_pair(x, *pair) {
                    assert(same_pair(elimview[0], x));
                }
            }
            assert forall|i: int|
                0 <= i < rounds0.len() implies #[trigger] self.round_manager.rounds@[i].live()
                == rounds0[i].live().filter(|p: ContestantPair| !same_pair(p, *pair)) by {
                lemma_filter_equiv(
                    rounds0[i].live(),
                    |p: ContestantPair| !crate::contestant::spec_contains_pair(elimview, p),
                    |p: ContestantPair| !same_pair(p, *pair),
                );
            }
            assert forall|k: int| #[trigger]
                self.possibilities.is_key(k) implies self.cids().contains(k) by {
                assert(old(self).possibilities.is_key(k));
            }
            // Surviving live guesses are exactly those that are not the
            // excluded pair, so they stay viable.
            if rounds_viable(*old(self)) {
                assert forall|i: int, t: int|
                    0 <= i < self.round_manager.rounds@.len() && 0 <= t
                        < self.round_manager.rounds@[i].live().len() implies self.possibilities.has_cand(
                    (#[trigger] self.round_manager.rounds@[i].live()[t]).id_a(),
                    self.round_manager.rounds@[i].live()[t].id_b(),
                ) by {
                    let e = self.round_manager.rounds@[i].live()[t];
                    assert(self.round_manager.rounds@[i].live().contains(e));
                    crate::round::lemma_filter_props(
                        rounds0[i].live(),
                        |p: ContestantPair| !same_pair(p, *pair),
                    );
                    assert(rounds0[i].live().contains(e) && !same_pair(e, *pair));
                    let u = choose|u: int|
                        0 <= u < rounds0[i].live().len() && rounds0[i].live()[u] == e;
                    assert(old(self).possibilities.has_cand(e.id_a(), e.id_b()));
                }
                assert(rounds_viable(*self));
            }
        }
        Ok(())
    }

    /// Settle a confirmed match: both contestants leave the possibility map,
    /// the pair joins the confirmed list, and every round drops its guesses
    /// naming either contestant along with one credit of its correct count.
    pub fn add_perfect_match(&mut self, pair: ContestantPair) -> (r: Result<(), SolverError>)
        requires
            old(self).wf(),
        ensures
            final(self).wf(),
            rounds_viable(*old(self)) ==> rounds_viable(*final(self)),
            match r {
                Ok(()) => confirmed_transition(*old(self), *final(self), pair),
                Err(e) => {
                    &&& e == SolverError::PlayerResolved
                    &&& !(old(self).possibilities.is_key(pair.id_a())
                        && old(self).possibilities.is_key(pair.id_b()) && pair.id_a()
                        != pair.id_b())
                    &&& *final(self) == *old(self)
                },
            },
    {
        let a_key = self.possibilities.contains_key(pair.get_a());
        let b_key = self.possibilities.contains_key(pair.get_b());
        if !a_key || !b_key || pair.get_a().id == pair.get_b().id {
            return Err(SolverError::PlayerResolved);
        }
        let ghost old_self = *self;
        self.possibilities.lock_pair_as_match(&pair);
        self.round_manager.perfect_match_found(&pair);
        self.right_matches.push(pair);
        proof {
            let a = self.right_matches@.last().id_a();
            let b = self.right_matches@.last().id_b();
            assert(self.mids() =~= old_self.mids() + seq![a, b]);
            assert forall|t: int|
                0 <= t < self.mids().len() implies self.cids().contains(#[trigger] self.mids()[t])
                    && !self.possibilities.is_key(self.mids()[t]) by {
                if t < old_self.mids().len() {
                    assert(self.mids()[t] == old_self.mids()[t]);
                }
            }
            assert(self.mids().no_duplicates());
            // Surviving live guesses name neither settled contestant, so they
            // stay viable.
            if rounds_viable(old_self) {
                assert forall|i: int, t: int|
                    0 <= i < self.round_manager.rounds@.len() && 0 <= t
                        < self.round_manager.rounds@[i].live().len() implies self.possibilities.has_cand(
                    (#[trigger] self.round_manager.rounds@[i].live()[t]).id_a(),
                    self.round_manager.rounds@[i].live()[t].id_b(),
                ) by {
                    let e = self.round_manager.rounds@[i].live()[t];
                    assert(self.round_manager.rounds@[i].live().contains(e));
                    crate::round::lemma_filter_props(
                        old_self.round_manager.rounds@[i].live(),
                        |p: ContestantPair| !p.spec_has_id(a) && !p.spec_has_id(b),
                    );
                    assert(old_self.round_manager.rounds@[i].live().contains(e)
                        && !e.spec_has_id(a) && !e.spec_has_id(b));
                    let u = choose|u: int|
                        0 <= u < old_self.round_manager.rounds@[i].live().len()
                            && old_self.round_manager.rounds@[i].live()[u] == e;
                    assert(old_self.possibilities.has_cand(e.id_a(), e.id_b()));
                }
                assert(rounds_viable(*self));
            }
        }
        Ok(())
    }

    /// One full pairing consistent with the possibility map: the confirmed
    /// matches first, then pairs found by most-constrained-first depth-first
    /// search with explicit backtracking. On success the pairs are disjoint,
    /// cover every contestant exactly once, and every searched pair is still
    /// viable in the map. The search is exhaustive: an error comes back
    /// exactly when the map admits no full pairing at all.
    #[verifier::loop_isolation(false)]
    #[verifier::rlimit(100)]
    pub fn possible_pairing(&self) -> (r: Result<Vec<ContestantPair>, SolverError>)
        requires
            self.wf(),
        ensures
            match r {
                Ok(v) => valid_full_pairing(*self, v@),
                Err(e) => e == SolverError::Unsatisfiable && (forall|v: Seq<ContestantPair>|
                    !(#[trigger] valid_full_pairing(*self, v))),
            },
    {
        let k_total = self.possibilities.num_keys();
        let half = k_total / 2;
        let ghost base: nat = (k_total + 2) as nat;
        let ghost depth: nat = (half + 1) as nat;
        let ghost cids = self.cids();
        let ghost mids = self.mids();
        let rl = self.right_matches.len();
        proof {
            assert(mids.len() == 2 * rl);
        }

        if k_total == 0 {
            let out = clone_pairs(&self.right_matches);
            proof {
                lemma_unique_cover(pair_ids(out@), cids);
            }
            return Ok(out);
        }
        let empty_off: Vec<Player> = Vec::new();
        let seed_p = match self.possibilities.most_constrained(&empty_off) {
            Some(pc) => pc.0,
            None => {
                proof {
                    assert(self.possibilities.is_key(self.possibilities.key_ids()[0]));
                    assert(false);
                }
                return Err(SolverError::Unsatisfiable);
            },
        };
        let seed_cands = match self.possibilities.candidates_of(&seed_p) {
            Some(v) => crate::contestant::clone_players(v),
            None => {
                proof {
                    assert(false);
                }
                return Err(SolverError::Unsatisfiable);
            },
        };
        let mut stack: Vec<SearchFrame> = Vec::new();
        stack.push(SearchFrame { player: seed_p, cands: seed_cands });
        let mut committed: Vec<ContestantPair> = Vec::new();
        proof {
            let sid = stack@[0].player.id as int;
            self.possibilities.lemma_idx_of(sid);
            assert(self.possibilities.cands_at(self.possibilities.idx_of(sid)).no_duplicates());
            assert forall|t: int|
                0 <= t < stack@[0].cands@.len() implies self.possibilities.has_cand(
                sid,
                #[trigger] player_ids(stack@[0].cands@)[t],
            ) && !pair_ids(committed@.take(0)).contains(player_ids(stack@[0].cands@)[t]) by {
                assert(self.possibilities.cands_of(sid)[t] == player_ids(stack@[0].cands@)[t]);
            }
            assert(frame_ok(self.possibilities, committed@, stack@[0], 0));
            assert(pair_ids(committed@).len() == 0);
            // Every full pairing the map admits can still be reached: its
            // choice for the seeded contestant is among the untried
            // candidates of the first frame.
            assert(player_ids(stack@[0].cands@) == self.possibilities.cands_of(sid));
            assert forall|v: Seq<ContestantPair>| #[trigger]
                valid_full_pairing(*self, v) implies exists|i: int| #[trigger] reaches(
                v,
                stack@,
                committed@,
                i,
            ) by {
                lemma_pairing_covers(*self, v, sid);
                let j = choose|j: int| 0 <= j < v.len() && (#[trigger] v[j]).spec_has_id(sid);
                lemma_pairing_viable(*self, v, sid, j);
                assert(reaches(v, stack@, committed@, 0));
            }
        }
        while committed.len() < half
            invariant
                k_total == self.possibilities.key_ids().len(),
                half == k_total / 2,
                base == k_total + 2,
                depth == half + 1,
                committed@.len() <= half,
                stack@.len() == committed@.len() + 1 || committed@.len() == half,
                stack_ok(self.possibilities, stack@, committed@),
                committed_ok(self.possibilities, committed@),
                committed@.len() < half ==> all_reachable(*self, stack@, committed@),
            decreases search_measure(stack@, base, depth),
        {
            let ghost stack0 = stack@;
            let ghost committed0 = committed@;
            let top = stack.len() - 1;
            proof {
                assert(frame_ok(self.possibilities, committed0, stack0[top as int], top as int));
                assert(committed0.take(top as int) =~= committed0);
            }
            if stack[top].cands.len() > 0 {
                let mut f = match stack.pop() {
                    Some(f) => f,
                    None => {
                        proof {
                            assert(false);
                        }
                        return Err(SolverError::Unsatisfiable);
                    },
                };
                let ghost f0 = f;
                let b_pl = f.cands.remove(0);
                let a_pl = f.player.clone();
                let ghost a = a_pl.id as int;
                let ghost b = b_pl.id as int;
                proof {
                    assert(player_ids(f0.cands@)[0] == b);
                    assert(self.possibilities.has_cand(a, b));
                    self.possibilities.lemma_sym(a, b);
                    crate::possibility::lemma_ids_remove(f0.cands@, 0);
                    crate::possibility::lemma_remove_unique(player_ids(f0.cands@), 0);
                }
                let pair = ContestantPair::new(a_pl, b_pl);
                stack.push(f);
                committed.push(pair);
                proof {
                    let newf = stack@[top as int];
                    assert(stack@ =~= stack0.drop_last().push(newf));
                    assert(stack@ =~= stack0.update(top as int, newf));
                    assert(pair_ids(committed@) =~= pair_ids(committed0).push(a).push(b));
                    // The committed pairs stay disjoint and viable.
                    assert(committed_ok(self.possibilities, committed@)) by {
                        assert(forall|t: int|
                            0 <= t < pair_ids(committed0).len() ==> pair_ids(committed@)[t]
                                == #[trigger] pair_ids(committed0)[t]);
                        assert(pair_ids(committed@).no_duplicates());
                    }
                    // Frames below keep their guarantees; the top frame only
                    // lost its first candidate.
                    assert forall|i: int|
                        0 <= i < stack@.len() implies frame_ok(
                        self.possibilities,
                        committed@,
                        #[trigger] stack@[i],
                        i,
                    ) by {
                        assert(committed@.take(i) =~= committed0.take(i));
                        assert(frame_ok(self.possibilities, committed0, stack0[i], i));
                        if i == top as int {
                            assert forall|t: int|
                                0 <= t < newf.cands@.len() implies self.possibilities.has_cand(
                                newf.player.id as int,
                                #[trigger] player_ids(newf.cands@)[t],
                            ) && !pair_ids(committed@.take(i)).contains(
                                player_ids(newf.cands@)[t],
                            ) by {
                                assert(player_ids(newf.cands@).contains(
                                    player_ids(newf.cands@)[t],
                                ));
                                assert(player_ids(f0.cands@).contains(player_ids(newf.cands@)[t]));
                                let u = choose|u: int|
                                    0 <= u < player_ids(f0.cands@).len() && player_ids(
                                        f0.cands@,
                                    )[u] == player_ids(newf.cands@)[t];
                            }
                            assert(frame_ok(self.possibilities, committed@, newf, i));
                        }
                    }
                    lemma_measure_shrink(stack0, newf, base, depth);
                    vstd::arithmetic::power::lemma_pow_positive(
                        base as int,
                        (depth - stack0.len()) as nat,
                    );
                    assert(search_measure(stack@, base, depth) < search_measure(
                        stack0,
                        base,
                        depth,
                    ));
                    lemma_measure_nonneg(stack@, base, depth);
                }
                if committed.len() < half {
                    let off_limits = crate::utils::pairs_to_contestants(&committed);
                    let next_p = match self.possibilities.most_constrained(&off_limits) {
                        Some(pc) => pc.0,
                        None => {
                            // Impossible: fewer committed ids than keys exist,
                            // so some key is not yet claimed.
                            proof {
                                assert forall|t: int|
                                    0 <= t < self.possibilities.key_ids().len() implies pair_ids(
                                    committed@,
                                ).contains(#[trigger] self.possibilities.key_ids()[t]) by {
                                    assert(self.possibilities.is_key(
                                        self.possibilities.key_ids()[t],
                                    ));
                                }
                                lemma_unique_subset_len(
                                    self.possibilities.key_ids(),
                                    pair_ids(committed@),
                                );
                                assert(k_total % 2 == 0);
                                assert(false);
                            }
                            return Err(SolverError::Unsatisfiable);
                        },
                    };
                    let next_cands_all = match self.possibilities.candidates_of(&next_p) {
                        Some(v) => v,
                        None => {
                            proof {
                                assert(false);
                            }
                            return Err(SolverError::Unsatisfiable);
                        },
                    };
                    let g_cands = BruteForce::filter_possibilities(next_cands_all, &off_limits);
                    let ghost stack1 = stack@;
                    let ghost nid = next_p.id as int;
                    stack.push(SearchFrame { player: next_p, cands: g_cands });
                    proof {
                        let g = stack@[stack@.len() - 1];
                        let gids = player_ids(g.cands@);
                        let ghost pred = |c: int| !player_ids(off_limits@).contains(c);
                        crate::round::lemma_filter_props(self.possibilities.cands_of(nid), pred);
                        assert(committed@.take(stack1.len() as int) =~= committed@);
                        // The new frame is consistent: its candidates are
                        // viable, unclaimed, and without duplicates.
                        assert forall|t: int|
                            0 <= t < g.cands@.len() implies self.possibilities.has_cand(
                            nid,
                            #[trigger] gids[t],
                        ) && !pair_ids(committed@.take(stack1.len() as int)).contains(gids[t]) by {
                            assert(gids.contains(gids[t]));
                            assert(self.possibilities.cands_of(nid).contains(gids[t]) && pred(
                                gids[t],
                            ));
                        }
                        assert(frame_ok(self.possibilities, committed@, g, stack1.len() as int));
                        assert forall|i: int|
                            0 <= i < stack@.len() implies frame_ok(
                            self.possibilities,
                            committed@,
                            #[trigger] stack@[i],
                            i,
                        ) by {
                            if i < stack1.len() {
                                assert(stack@[i] == stack1[i]);
                                assert(frame_ok(self.possibilities, committed@, stack1[i], i));
                            }
                        }
                        // The fresh frame weighs less than the slot freed at
                        // the level above.
                        assert(gids == self.possibilities.cands_of(nid).filter(pred));
                        self.possibilities.cands_of(nid).lemma_filter_len(pred);
                        lemma_cand_bound(self.possibilities, nid);
                        assert(g.cands@.len() + 2 <= base);
                        lemma_measure_push(stack1, g, base, depth);
                        assert(search_measure(stack@, base, depth) < search_measure(
                            stack0,
                            base,
                            depth,
                        ));
                        // Every pairing still admissible keeps a live branch
                        // point: below the touched level nothing moved; at the
                        // touched level either the pairing's own choice is
                        // still untried, or it agrees with the new commitment
                        // and its choice for the next contestant sits in the
                        // fresh frame.
                        assert(stack0[top as int] == f0);
                        assert forall|v: Seq<ContestantPair>| #[trigger]
                            valid_full_pairing(*self, v) implies exists|i2: int| #[trigger] reaches(
                            v,
                            stack@,
                            committed@,
                            i2,
                        ) by {
                            let i0 = choose|i0: int| #[trigger] reaches(v, stack0, committed0, i0);
                            if i0 < top as int {
                                assert(stack@[i0] == stack0[i0]);
                                assert forall|t: int|
                                    0 <= t < i0 implies spec_contains_pair(
                                    v,
                                    #[trigger] committed@[t],
                                ) by {
                                    assert(committed@[t] == committed0[t]);
                                }
                                assert(reaches(v, stack@, committed@, i0));
                            } else {
                                let y = partner_of(v, a);
                                assert(player_ids(stack0[top as int].cands@).contains(y));
                                assert(self.possibilities.is_key(a));
                                lemma_pairing_covers(*self, v, a);
                                let j = choose|j: int|
                                    0 <= j < v.len() && (#[trigger] v[j]).spec_has_id(a);
                                lemma_partner_at(v, a, j);
                                if y == b {
                                    assert(same_pair(v[j], committed@[top as int]));
                                    assert(spec_contains_pair(v, committed@[top as int]));
                                    assert forall|t: int|
                                        0 <= t < stack1.len() implies spec_contains_pair(
                                        v,
                                        #[trigger] committed@[t],
                                    ) by {
                                        if t < top as int {
                                            assert(committed@[t] == committed0[t]);
                                        }
                                    }
                                    assert(self.possibilities.is_key(nid));
                                    lemma_pairing_covers(*self, v, nid);
                                    let j2 = choose|j2: int|
                                        0 <= j2 < v.len() && (#[trigger] v[j2]).spec_has_id(nid);
                                    lemma_pairing_viable(*self, v, nid, j2);
                                    let z = partner_of(v, nid);
                                    lemma_partner_outside(v, committed@, nid, j2);
                                    assert(self.possibilities.cands_of(nid).contains(z));
                                    crate::round::lemma_filter_keeps(
                                        self.possibilities.cands_of(nid),
                                        pred,
                                        z,
                                    );
                                    assert(player_ids(g.cands@).contains(z));
                                    assert(reaches(v, stack@, committed@, stack1.len() as int));
                                } else {
                                    assert(player_ids(stack@[top as int].cands@).contains(y));
                                    assert forall|t: int|
                                        0 <= t < top as int implies spec_contains_pair(
                                        v,
                                        #[trigger] committed@[t],
                                    ) by {
                                        assert(committed@[t] == committed0[t]);
                                    }
                                    assert(reaches(v, stack@, committed@, top as int));
                                }
                            }
                        }
                    }
                }
            } else {
                let _ = stack.pop();
                if committed.len() == 0 {
                    // The one frame left offered nothing and there is no
                    // commitment to undo: no branch point remains, so no full
                    // pairing is consistent with the map at all.
                    proof {
                        assert forall|v: Seq<ContestantPair>| !(#[trigger] valid_full_pairing(
                            *self,
                            v,
                        )) by {
                            if valid_full_pairing(*self, v) {
                                let i0 = choose|i0: int| #[trigger] reaches(
                                    v,
                                    stack0,
                                    committed0,
                                    i0,
                                );
                                assert(i0 == 0);
                                assert(player_ids(stack0[0].cands@).len() == 0);
                                assert(false);
                            }
                        }
                    }
                    return Err(SolverError::Unsatisfiable);
                }
                let _ = committed.pop();
                proof {
                    assert(stack@ =~= stack0.drop_last());
                    assert(committed@ =~= committed0.drop_last());
                    assert(pair_ids(committed@) =~= pair_ids(committed0).take(
                        2 * committed@.len() as int,
                    ));
                    assert forall|i: int|
                        0 <= i < stack@.len() implies frame_ok(
                        self.possibilities,
                        committed@,
                        #[trigger] stack@[i],
                        i,
                    ) by {
                        assert(committed@.take(i) =~= committed0.take(i));
                        assert(stack@[i] == stack0[i]);
                        assert(frame_ok(self.possibilities, committed0, stack0[i], i));
                    }
                    assert(committed_ok(self.possibilities, committed@)) by {
                        assert(forall|t: int|
                            0 <= t < pair_ids(committed@).len() ==> #[trigger] pair_ids(
                                committed@,
                            )[t] == pair_ids(committed0)[t]);
                        assert(forall|i: int|
                            0 <= i < committed@.len() ==> #[trigger] committed@[i]
                                == committed0[i]);
                    }
                    lemma_measure_pop(stack0, base, depth);
                    assert(search_measure(stack@, base, depth) < search_measure(
                        stack0,
                        base,
                        depth,
                    ));
                    lemma_measure_nonneg(stack@, base, depth);
                    // Every pairing's branch point sat strictly below the
                    // exhausted frame, so it survives the pop untouched.
                    assert forall|v: Seq<ContestantPair>| #[trigger]
                        valid_full_pairing(*self, v) implies exists|i2: int| #[trigger] reaches(
                        v,
                        stack@,
                        committed@,
                        i2,
                    ) by {
                        let i0 = choose|i0: int| #[trigger] reaches(v, stack0, committed0, i0);
                        assert(i0 < top as int) by {
                            if i0 == top as int {
                                assert(player_ids(stack0[top as int].cands@).len() == 0);
                            }
                        }
                        assert(stack@[i0] == stack0[i0]);
                        assert forall|t: int|
                            0 <= t < i0 implies spec_contains_pair(v, #[trigger] committed@[t]) by {
                            assert(committed@[t] == committed0[t]);
                        }
                        assert(reaches(v, stack@, committed@, i0));
                    }
                }
            }
            proof {
                lemma_measure_nonneg(stack@, base, depth);
                assert(search_measure(stack@, base, depth) < search_measure(stack0, base, depth));
            }
        }
        let mut out = crate::contestant::clone_pairs(&self.right_matches);
        let ghost outpre = out@;
        let mut searched = committed;
        let ghost searchedview = searched@;
        out.append(&mut searched);
        proof {
            assert(out@ == outpre + searchedview);
            assert(pair_ids(out@) =~= mids + pair_ids(searchedview));
            let allids = pair_ids(out@);
            // Confirmed ids and searched ids never collide: the former are no
            // longer keys, the latter all are.
            assert forall|t1: int, t2: int|
                0 <= t1 < allids.len() && 0 <= t2 < allids.len() && t1 != t2 implies allids[t1]
                != allids[t2] by {
                if t1 < mids.len() && t2 >= mids.len() {
                    assert(!self.possibilities.is_key(mids[t1]));
                    assert(self.possibilities.is_key(pair_ids(searchedview)[t2 - mids.len()]));
                } else if t2 < mids.len() && t1 >= mids.len() {
                    assert(!self.possibilities.is_key(mids[t2]));
                    assert(self.possibilities.is_key(pair_ids(searchedview)[t1 - mids.len()]));
                }
            }
            assert forall|t: int| 0 <= t < allids.len() implies cids.contains(#[trigger] allids[t]) by {
                if t >= mids.len() {
                    assert(self.possibilities.is_key(pair_ids(searchedview)[t - mids.len()]));
                }
            }
            assert(allids.len() == cids.len());
            lemma_unique_cover(allids, cids);
        }
        Ok(out)
    }

    /// A full pairing to submit to the ceremony.
    pub fn ceremony_pairs(&mut self) -> (r: Result<Vec<ContestantPair>, SolverError>)
        requires
            old(self).wf(),
        ensures
            *final(self) == *old(self),
            match r {
                Ok(v) => valid_full_pairing(*old(self), v@),
                Err(e) => e == SolverError::Unsatisfiable && (forall|v: Seq<ContestantPair>|
                    !(#[trigger] valid_full_pairing(*old(self), v))),
            },
    {
        self.possible_pairing()
    }

    /// Digest the ceremony's count of correct pairs. When no unconfirmed
    /// guess was right, every guessed pair still viable is ruled out, in the
    /// map and in every saved round; otherwise the guesses not already
    /// confirmed are recorded as a new round scored with the count of
    /// newly-correct pairs. A count below the number of confirmed matches is
    /// inconsistent and rejected, as is a guess naming an unknown player.
    #[verifier::loop_isolation(false)]
    #[verifier::rlimit(60)]
    pub fn ceremony_feedback(&mut self, num_right: usize, guess: Vec<ContestantPair>) -> (r:
        Result<(), SolverError>)
        requires
            old(self).wf(),
        ensures
            final(self).wf(),
            final(self).contestants@ == old(self).contestants@,
            final(self).right_matches@ == old(self).right_matches@,
            (num_right == old(self).right_matches@.len() && (exists|t: int|
                0 <= t < guess@.len() && !(old(self).cids().contains(
                    (#[trigger] guess@[t]).id_a(),
                ) && old(self).cids().contains(guess@[t].id_b())))) ==> r == Err::<(), SolverError>(
                SolverError::UnknownPlayer,
            ),
            (rounds_viable(*old(self)) && (num_right > old(self).right_matches@.len()
                ==> forall|t: int|
                    0 <= t < guess@.len() ==> old(self).possibilities.has_cand(
                        (#[trigger] guess@[t]).id_a(),
                        guess@[t].id_b(),
                    ) || spec_contains_pair(old(self).right_matches@, guess@[t])))
                ==> rounds_viable(*final(self)),
            match r {
                Ok(()) => {
                    &&& num_right >= old(self).right_matches@.len()
                    &&& (num_right == old(self).right_matches@.len() ==> {
                        &&& forall|t: int|
                            0 <= t < guess@.len() ==> old(self).cids().contains(
                                (#[trigger] guess@[t]).id_a(),
                            ) && old(self).cids().contains(guess@[t].id_b())
                        &&& final(self).possibilities.key_ids() == old(self).possibilities.key_ids()
                        &&& forall|x: int, y: int| #[trigger]
                            final(self).possibilities.has_cand(x, y) == (old(self).possibilities.has_cand(x, y) && !guess_hits(guess@, x, y))
                        &&& final(self).round_manager.rounds@.len() == old(self).round_manager.rounds@.len()
                        &&& forall|i: int|
                            0 <= i < old(self).round_manager.rounds@.len() ==> {
                                let r0 = old(self).round_manager.rounds@[i];
                                let r1 = #[trigger] final(self).round_manager.rounds@[i];
                                &&& r1.guess_seq() == r0.guess_seq()
                                &&& r1.num_correct == r0.num_correct
                                &&& r1.round_id == r0.round_id
                                &&& r1.live() == r0.live().filter(
                                    |p: ContestantPair|
                                        !newly_hit(old(self).possibilities, guess@, p),
                                )
                            }
                    })
                    &&& (num_right > old(self).right_matches@.len() ==> {
                        &&& final(self).possibilities == old(self).possibilities
                        &&& final(self).round_manager.rounds@.len() == old(self).round_manager.rounds@.len() + 1
                        &&& forall|i: int|
                            0 <= i < old(self).round_manager.rounds@.len()
                                ==> final(self).round_manager.rounds@[i] == old(self).round_manager.rounds@[i]
                        &&& final(self).round_manager.rounds@.last().guess_seq() == guess@.filter(
                            |p: ContestantPair|
                                !crate::contestant::spec_contains_pair(
                                    old(self).right_matches@,
                                    p,
                                ),
                        )
                        &&& final(self).round_manager.rounds@.last().live() == final(self).round_manager.rounds@.last().guess_seq()
                        &&& final(self).round_manager.rounds@.last().num_correct == num_right - old(self).right_matches@.len()
                    })
                },
                Err(e) => {
                    &&& *final(self) == *old(self)
                    &&& (e == SolverError::FeedbackMismatch || e == SolverError::UnknownPlayer)
                    &&& (e == SolverError::FeedbackMismatch <==> num_right < old(
                        self,
                    ).right_matches@.len())
                    &&& (e == SolverError::UnknownPlayer ==> exists|t: int|
                        0 <= t < guess@.len() && !(old(self).cids().contains(
                            (#[trigger] guess@[t]).id_a(),
                        ) && old(self).cids().contains(guess@[t].id_b())))
                },
            },
    {
        let rl = self.right_matches.len();
        if num_right < rl {
            return Err(SolverError::FeedbackMismatch);
        }
        let num_new_correct = num_right - rl;
        if num_new_correct == 0 {
            let n = guess.len();
            let mut t: usize = 0;
            while t < n
                invariant
                    t <= n,
                    n == guess@.len(),
                    *self == *old(self),
                    forall|u: int|
                        0 <= u < t ==> self.cids().contains((#[trigger] guess@[u]).id_a())
                            && self.cids().contains(guess@[u].id_b()),
                decreases n - t,
            {
                if !has_id(&self.contestants, guess[t].get_a().id) || !has_id(
                    &self.contestants,
                    guess[t].get_b().id,
                ) {
                    return Err(SolverError::UnknownPlayer);
                }
                t += 1;
            }
            proof {
                assert(forall|u: int|
                    0 <= u < guess@.len() ==> old(self).cids().contains(
                        (#[trigger] guess@[u]).id_a(),
                    ) && old(self).cids().contains(guess@[u].id_b()));
            }
            let ghost m0 = self.possibilities;
            let mut newly: Vec<ContestantPair> = Vec::new();
            let mut i: usize = 0;
            while i < n
                invariant
                    i <= n,
                    n == guess@.len(),
                    self.wf(),
                    self.contestants@ == old(self).contestants@,
                    self.right_matches@ == old(self).right_matches@,
                    self.round_manager == old(self).round_manager,
                    m0 == old(self).possibilities,
                    self.possibilities.key_ids() == m0.key_ids(),
                    forall|x: int, y: int| #[trigger]
                        self.possibilities.has_cand(x, y) == (m0.has_cand(x, y) && !guess_hits(
                            guess@.take(i as int),
                            x,
                            y,
                        )),
                    forall|p: ContestantPair| #[trigger]
                        crate::contestant::spec_contains_pair(newly@, p) == newly_hit(
                            m0,
                            guess@.take(i as int),
                            p,
                        ),
                decreases n - i,
            {
                let ghost mprev = self.possibilities;
                let ghost newly0 = newly@;
                let pair = &guess[i];
                let excluded_now = self.possibilities.is_excluded(pair);
                if !excluded_now {
                    self.possibilities.exclude_pair(pair);
                    newly.push(pair.clone());
                }
                proof {
                    let gi = guess@[i as int];
                    assert(guess@.take(i as int + 1).drop_last() =~= guess@.take(i as int));
                    // A pair the current map had already ruled out was either
                    // ruled out from the start or hit by an earlier guess.
                    if excluded_now {
                        if mprev.has_cand(gi.id_a(), gi.id_b()) {
                            mprev.lemma_sym(gi.id_a(), gi.id_b());
                        }
                        if mprev.has_cand(gi.id_b(), gi.id_a()) {
                            mprev.lemma_sym(gi.id_b(), gi.id_a());
                        }
                        if !m0.spec_is_excluded(gi.id_a(), gi.id_b()) {
                            assert(m0.has_cand(gi.id_a(), gi.id_b()));
                            assert(guess_hits(guess@.take(i as int), gi.id_a(), gi.id_b()));
                        }
                    } else {
                        assert(m0.has_cand(gi.id_a(), gi.id_b())) by {
                            if guess_hits(guess@.take(i as int), gi.id_a(), gi.id_b()) {
                                assert(!mprev.has_cand(gi.id_a(), gi.id_b()));
                            }
                            m0.lemma_sym(gi.id_a(), gi.id_b());
                        }
                    }
                    assert forall|x: int, y: int| #[trigger]
                        self.possibilities.has_cand(x, y) == (m0.has_cand(x, y) && !guess_hits(
                            guess@.take(i as int + 1),
                            x,
                            y,
                        )) by {
                        assert(guess@.take(i as int + 1)[i as int] == gi);
                        if guess_hits(guess@.take(i as int + 1), x, y) && !guess_hits(
                            guess@.take(i as int),
                            x,
                            y,
                        ) {
                            let t = choose|t: int|
                                0 <= t < guess@.take(i as int + 1).len() && (((#[trigger] guess@.take(
                                    i as int + 1,
                                )[t]).id_a() == x && guess@.take(i as int + 1)[t].id_b() == y) || (
                                guess@.take(i as int + 1)[t].id_a() == y && guess@.take(
                                    i as int + 1,
                                )[t].id_b() == x));
                            assert(t == i as int);
                        }
                        if guess_hits(guess@.take(i as int), x, y) {
                            let t = choose|t: int|
                                0 <= t < guess@.take(i as int).len() && (((#[trigger] guess@.take(
                                    i as int,
                                )[t]).id_a() == x && guess@.take(i as int)[t].id_b() == y) || (
                                guess@.take(i as int)[t].id_a() == y && guess@.take(i as int)[t].id_b()
                                    == x));
                            assert(guess@.take(i as int + 1)[t] == guess@.take(i as int)[t]);
                            assert(guess_hits(guess@.take(i as int + 1), x, y));
                        }
                    }
                    assert forall|p: ContestantPair| #[trigger]
                        crate::contestant::spec_contains_pair(newly@, p) == newly_hit(
                        m0,
                        guess@.take(i as int + 1),
                        p,
                    ) by {
                        if crate::contestant::spec_contains_pair(newly@, p) {
                            let k = choose|k: int|
                                0 <= k < newly@.len() && same_pair(#[trigger] newly@[k], p);
                            if k < newly0.len() {
                                assert(crate::contestant::spec_contains_pair(newly0, p)) by {
                                    assert(same_pair(newly0[k], p));
                                }
                                let t = choose|t: int|
                                    0 <= t < guess@.take(i as int).len() && same_pair(
                                        #[trigger] guess@.take(i as int)[t],
                                        p,
                                    ) && !m0.spec_is_excluded(
                                        guess@.take(i as int)[t].id_a(),
                                        guess@.take(i as int)[t].id_b(),
                                    );
                                assert(guess@.take(i as int + 1)[t] == guess@.take(i as int)[t]);
                                assert(newly_hit(m0, guess@.take(i as int + 1), p));
                            } else {
                                assert(same_pair(guess@.take(i as int + 1)[i as int], p));
                                assert(newly_hit(m0, guess@.take(i as int + 1), p));
                            }
                        }
                        if newly_hit(m0, guess@.take(i as int + 1), p) {
                            let t = choose|t: int|
                                0 <= t < guess@.take(i as int + 1).len() && same_pair(
                                    #[trigger] guess@.take(i as int + 1)[t],
                                    p,
                                ) && !m0.spec_is_excluded(
                                    guess@.take(i as int + 1)[t].id_a(),
                                    guess@.take(i as int + 1)[t].id_b(),
                                );
                            if t < i as int {
                                assert(guess@.take(i as int)[t] == guess@.take(i as int + 1)[t]);
                                assert(newly_hit(m0, guess@.take(i as int), p));
                                assert(crate::contestant::spec_contains_pair(newly0, p));
                                let k = choose|k: int|
                                    0 <= k < newly0.len() && same_pair(#[trigger] newly0[k], p);
                                assert(same_pair(newly@[k], p));
                            } else {
                                assert(same_pair(gi, p));
                                if excluded_now {
                                    assert(guess_hits(guess@.take(i as int), gi.id_a(), gi.id_b()));
                                    let u = choose|u: int|
                                        0 <= u < guess@.take(i as int).len() && (((
                                        #[trigger] guess@.take(i as int)[u]).id_a() == gi.id_a()
                                            && guess@.take(i as int)[u].id_b() == gi.id_b()) || (
                                        guess@.take(i as int)[u].id_a() == gi.id_b() && guess@.take(
                                            i as int,
                                        )[u].id_b() == gi.id_a()));
                                    assert(same_pair(guess@.take(i as int)[u], p));
                                    assert(!m0.spec_is_excluded(gi.id_a(), gi.id_b()));
                                    m0.lemma_sym(gi.id_a(), gi.id_b());
                                    assert(!m0.spec_is_excluded(gi.id_b(), gi.id_a()));
                                    assert(newly_hit(m0, guess@.take(i as int), p));
                                    assert(crate::contestant::spec_contains_pair(newly0, p));
                                    let k = choose|k: int|
                                        0 <= k < newly0.len() && same_pair(
                                            #[trigger] newly0[k],
                                            p,
                                        );
                                    assert(same_pair(newly@[k], p));
                                } else {
                                    assert(same_pair(newly@[newly@.len() - 1], p));
                                }
                            }
                        }
                    }
                    assert forall|k: int| #[trigger]
                        self.possibilities.is_key(k) implies self.cids().contains(k) by {
                        assert(mprev.is_key(k));
                        assert(old(self).possibilities.is_key(k));
                    }
                    assert forall|t2: int|
                        0 <= t2 < self.mids().len() implies !self.possibilities.is_key(
                        #[trigger] self.mids()[t2],
                    ) by {
                        if self.possibilities.is_key(self.mids()[t2]) {
                            assert(old(self).possibilities.is_key(self.mids()[t2]));
                        }
                    }
                }
                i += 1;
            }
            let ghost newlyview = newly@;
            let ghost rounds0 = self.round_manager.rounds@;
            self.round_manager.eliminate_guesses(newly);
            proof {
                assert(guess@.take(n as int) =~= guess@);
                assert forall|i2: int|
                    0 <= i2 < rounds0.len() implies #[trigger] self.round_manager.rounds@[i2].live()
                    == rounds0[i2].live().filter(
                    |p: ContestantPair| !newly_hit(old(self).possibilities, guess@, p),
                ) by {
                    lemma_filter_equiv(
                        rounds0[i2].live(),
                        |p: ContestantPair|
                            !crate::contestant::spec_contains_pair(newlyview, p),
                        |p: ContestantPair| !newly_hit(old(self).possibilities, guess@, p),
                    );
                }
                // A surviving live guess was not newly struck; being viable
                // before, it is not named by the guess at all, so it stays
                // viable.
                if rounds_viable(*old(self)) {
                    assert forall|i2: int, t2: int|
                        0 <= i2 < self.round_manager.rounds@.len() && 0 <= t2
                            < self.round_manager.rounds@[i2].live().len() implies self.possibilities.has_cand(
                        (#[trigger] self.round_manager.rounds@[i2].live()[t2]).id_a(),
                        self.round_manager.rounds@[i2].live()[t2].id_b(),
                    ) by {
                        let e = self.round_manager.rounds@[i2].live()[t2];
                        assert(self.round_manager.rounds@[i2].live().contains(e));
                        crate::round::lemma_filter_props(
                            rounds0[i2].live(),
                            |p: ContestantPair| !newly_hit(old(self).possibilities, guess@, p),
                        );
                        assert(rounds0[i2].live().contains(e) && !newly_hit(
                            m0,
                            guess@,
                            e,
                        ));
                        let u = choose|u: int|
                            0 <= u < rounds0[i2].live().len() && rounds0[i2].live()[u] == e;
                        assert(m0.has_cand(e.id_a(), e.id_b()));
                        m0.lemma_sym(e.id_a(), e.id_b());
                        if guess_hits(guess@, e.id_a(), e.id_b()) {
                            let w = choose|w: int|
                                0 <= w < guess@.len() && (((#[trigger] guess@[w]).id_a()
                                    == e.id_a() && guess@[w].id_b() == e.id_b()) || (
                                guess@[w].id_a() == e.id_b() && guess@[w].id_b() == e.id_a()));
                            assert(same_pair(guess@[w], e));
                            assert(!m0.spec_is_excluded(guess@[w].id_a(), guess@[w].id_b()));
                            assert(newly_hit(m0, guess@, e));
                        }
                    }
                    assert(rounds_viable(*self));
                }
            }
            Ok(())
        } else {
            let ghost guessview = guess@;
            let ghost keep = |p: ContestantPair|
                !crate::contestant::spec_contains_pair(old(self).right_matches@, p);
            let mut rest = guess;
            let mut live_guess: Vec<ContestantPair> = Vec::new();
            let n = rest.len();
            let mut t: usize = 0;
            proof {
                assert(guessview.take(0).filter(keep) =~= Seq::<ContestantPair>::empty());
                assert(rest@ =~= guessview.skip(0));
            }
            while t < n
                invariant
                    t <= n,
                    n == guessview.len(),
                    *self == *old(self),
                    rest@ == guessview.skip(t as int),
                    live_guess@ == guessview.take(t as int).filter(keep),
                decreases n - t,
            {
                proof {
                    crate::round::lemma_filter_take_step(guessview, keep, t as int);
                    assert(rest@[0] == guessview[t as int]);
                }
                let p = rest.remove(0);
                if !crate::contestant::contains_pair(&self.right_matches, &p) {
                    live_guess.push(p);
                    proof {
                        assert(live_guess@ =~= guessview.take(t as int + 1).filter(keep));
                    }
                }
                proof {
                    assert(rest@ =~= guessview.skip(t as int + 1));
                }
                t += 1;
            }
            proof {
                assert(guessview.take(n as int) =~= guessview);
            }
            let ghost lview = live_guess@;
            self.round_manager.add_round(live_guess, num_new_correct);
            proof {
                // The fresh round holds guesses the caller vouched for (or
                // confirmed pairs, which were filtered away); older rounds and
                // the map did not move.
                if rounds_viable(*old(self)) && (num_right > old(self).right_matches@.len()
                    ==> forall|t: int|
                        0 <= t < guess@.len() ==> old(self).possibilities.has_cand(
                            (#[trigger] guess@[t]).id_a(),
                            guess@[t].id_b(),
                        ) || spec_contains_pair(old(self).right_matches@, guess@[t])) {
                    assert forall|i2: int, t2: int|
                        0 <= i2 < self.round_manager.rounds@.len() && 0 <= t2
                            < self.round_manager.rounds@[i2].live().len() implies self.possibilities.has_cand(
                        (#[trigger] self.round_manager.rounds@[i2].live()[t2]).id_a(),
                        self.round_manager.rounds@[i2].live()[t2].id_b(),
                    ) by {
                        if i2 < old(self).round_manager.rounds@.len() {
                            assert(self.round_manager.rounds@[i2] == old(
                                self,
                            ).round_manager.rounds@[i2]);
                            assert(old(self).possibilities.has_cand(
                                old(self).round_manager.rounds@[i2].live()[t2].id_a(),
                                old(self).round_manager.rounds@[i2].live()[t2].id_b(),
                            ));
                        } else {
                            assert(self.round_manager.rounds@[i2].live() == lview);
                            let e = lview[t2];
                            assert(lview.contains(e));
                            crate::round::lemma_filter_props(guessview, keep);
                            assert(guessview.contains(e) && !spec_contains_pair(
                                old(self).right_matches@,
                                e,
                            ));
                            let u = choose|u: int|
                                0 <= u < guessview.len() && guessview[u] == e;
                            assert(old(self).possibilities.has_cand(
                                (guess@[u]).id_a(),
                                guess@[u].id_b(),
                            ) || spec_contains_pair(old(self).right_matches@, guess@[u]));
                        }
                    }
                    assert(rounds_viable(*self));
                }
            }
            Ok(())
        }
    }

    /// One pair to query at the truth booth: a guess from the most effective
    /// round when that beats blind elimination, otherwise the first candidate
    /// of the most constrained contestant.
    pub fn send_to_booth(&mut self) -> (r: Result<ContestantPair, SolverError>)
        requires
            old(self).wf(),
        ensures
            final(self).wf(),
            final(self).contestants@ == old(self).contestants@,
            final(self).right_matches@ == old(self).right_matches@,
            final(self).possibilities == old(self).possibilities,
            final(self).round_manager.rounds@ == old(self).round_manager.rounds@,
            match r {
                Ok(p) => if prefers_round(*old(self)) {
                    &&& p.id_a() == old(self).round_manager.best_round().live()[0].id_a()
                    &&& p.id_b() == old(self).round_manager.best_round().live()[0].id_b()
                    &&& rounds_viable(*old(self)) ==> old(self).possibilities.has_cand(
                        p.id_a(),
                        p.id_b(),
                    )
                    &&& final(self).round_manager.times_round_used == (
                    if old(self).round_manager.times_round_used < usize::MAX {
                        old(self).round_manager.times_round_used + 1
                    } else {
                        old(self).round_manager.times_round_used as int
                    })
                } else {
                    &&& old(self).possibilities.is_key(p.id_a())
                    &&& old(self).possibilities.spec_is_min_count(
                        old(self).possibilities.cand_count(p.id_a()),
                    )
                    &&& old(self).possibilities.cands_of(p.id_a())[0] == p.id_b()
                    &&& old(self).possibilities.has_cand(p.id_a(), p.id_b())
                    &&& final(self).round_manager.times_round_used == old(
                        self,
                    ).round_manager.times_round_used
                },
                Err(e) => ((e == SolverError::Unsatisfiable && !prefers_round(*old(self)) && (old(self).possibilities.key_ids().len() == 0 || old(self).possibilities.spec_is_min_count(
                    0,
                ))) || (e == SolverError::NotEnoughGuesses && prefers_round(*old(self)) && old(self).round_manager.best_round().live().len() == 0)) && final(self).round_manager.times_round_used == old(self).round_manager.times_round_used,
            },
    {
        if self.possibilities.num_keys() == 0 {
            proof {
                assert forall|k: nat| !self.possibilities.spec_is_min_count(k) by {
                    if self.possibilities.spec_is_min_count(k) {
                        let q = choose|q: int| #[trigger]
                            self.possibilities.is_key(q) && self.possibilities.cand_count(q) == k;
                    }
                }
            }
            return Err(SolverError::Unsatisfiable);
        }
        if self.round_manager.should_use_round(&self.possibilities) {
            match self.round_manager.best_guess() {
                Some(p) => {
                    proof {
                        if rounds_viable(*old(self)) {
                            crate::roundmanager::lemma_best_index_upto(
                                old(self).round_manager.rounds@,
                                old(self).round_manager.rounds@.len() as int,
                            );
                        }
                    }
                    Ok(p)
                },
                None => Err(SolverError::NotEnoughGuesses),
            }
        } else {
            let empty_off: Vec<Player> = Vec::new();
            let player = match self.possibilities.most_constrained(&empty_off) {
                Some(pc) => pc.0,
                None => {
                    proof {
                        assert(self.possibilities.is_key(self.possibilities.key_ids()[0]));
                        assert(false);
                    }
                    return Err(SolverError::Unsatisfiable);
                },
            };
            proof {
                assert(self.possibilities.spec_is_min_count(
                    self.possibilities.cand_count(player.id as int),
                ));
            }
            let cands = match self.possibilities.candidates_of(&player) {
                Some(v) => v,
                None => {
                    proof {
                        assert(false);
                    }
                    return Err(SolverError::Unsatisfiable);
                },
            };
            if cands.len() == 0 {
                return Err(SolverError::Unsatisfiable);
            }
            let partner = cands[0].clone();
            proof {
                assert(self.possibilities.cands_of(player.id as int)[0] == partner.id as int);
                assert(self.possibilities.has_cand(player.id as int, partner.id as int));
                self.possibilities.lemma_sym(player.id as int, partner.id as int);
            }
            Ok(ContestantPair::new(player, partner))
        }
    }

    /// Digest the truth booth's answer: a confirmed pair is settled as a
    /// perfect match, a denied pair is ruled out.
    pub fn booth_feedback(&mut self, feedback: Feedback) -> (r: Result<(), SolverError>)
        requires
            old(self).wf(),
        ensures
            final(self).wf(),
            rounds_viable(*old(self)) ==> rounds_viable(*final(self)),
            match r {
                Ok(()) => match feedback {
                    Feedback::Correct(pair) => confirmed_transition(
                        *old(self),
                        *final(self),
                        pair,
                    ),
                    Feedback::Wrong(pair) => excluded_transition(*old(self), *final(self), pair),
                },
                Err(e) => {
                    &&& *final(self) == *old(self)
                    &&& match feedback {
                        Feedback::Correct(pair) => e == SolverError::PlayerResolved && !(old(self).possibilities.is_key(pair.id_a()) && old(self).possibilities.is_key(
                            pair.id_b(),
                        ) && pair.id_a() != pair.id_b()),
                        Feedback::Wrong(pair) => e == SolverError::UnknownPlayer && !(old(self).cids().contains(pair.id_a()) && old(self).cids().contains(pair.id_b())),
                    }
                },
            },
    {
        match feedback {
            Feedback::Correct(pair) => self.add_perfect_match(pair),
            Feedback::Wrong(pair) => self.remove_guess(&pair),
        }
    }

    /// Record a ceremony round with its count of correct pairs.
    pub fn add_round(&mut self, guess: Vec<ContestantPair>, num_correct: usize)
        requires
            old(self).wf(),
        ensures
            final(self).wf(),
            final(self).contestants@ == old(self).contestants@,
            final(self).right_matches@ == old(self).right_matches@,
            final(self).possibilities == old(self).possibilities,
            final(self).round_manager.rounds@.len() == old(self).round_manager.rounds@.len() + 1,
            forall|i: int|
                0 <= i < old(self).round_manager.rounds@.len()
                    ==> final(self).round_manager.rounds@[i] == old(self).round_manager.rounds@[i],
            final(self).round_manager.rounds@.last().guess_seq() == guess@,
            final(self).round_manager.rounds@.last().live() == guess@,
            final(self).round_manager.rounds@.last().num_correct == num_correct,
            final(self).round_manager.last_round_id == (
            if old(self).round_manager.last_round_id < u32::MAX {
                old(self).round_manager.last_round_id + 1
            } else {
                u32::MAX as int
            }),
            final(self).round_manager.rounds@.last().round_id == final(self).round_manager.last_round_id,
            final(self).round_manager.times_round_used == old(self).round_manager.times_round_used,
            (rounds_viable(*old(self)) && (forall|t: int|
                0 <= t < guess@.len() ==> old(self).possibilities.has_cand(
                    (#[trigger] guess@[t]).id_a(),
                    guess@[t].id_b(),
                ))) ==> rounds_viable(*final(self)),
    {
        let ghost guessview = guess@;
        self.round_manager.add_round(guess, num_correct);
        proof {
            if rounds_viable(*old(self)) && (forall|t: int|
                0 <= t < guessview.len() ==> old(self).possibilities.has_cand(
                    (#[trigger] guessview[t]).id_a(),
                    guessview[t].id_b(),
                )) {
                assert forall|i: int, t: int|
                    0 <= i < self.round_manager.rounds@.len() && 0 <= t
                        < self.round_manager.rounds@[i].live().len() implies self.possibilities.has_cand(
                    (#[trigger] self.round_manager.rounds@[i].live()[t]).id_a(),
                    self.round_manager.rounds@[i].live()[t].id_b(),
                ) by {
                    if i < old(self).round_manager.rounds@.len() {
                        assert(self.round_manager.rounds@[i] == old(
                            self,
                        ).round_manager.rounds@[i]);
                        assert(old(self).possibilities.has_cand(
                            old(self).round_manager.rounds@[i].live()[t].id_a(),
                            old(self).round_manager.rounds@[i].live()[t].id_b(),
                        ));
                    } else {
                        assert(self.round_manager.rounds@[i].live() == guessview);
                    }
                }
                assert(rounds_viable(*self));
            }
        }
    }
}

impl GameStrategy for BruteForce {
    open spec fn strategy_wf(&self) -> bool {
        self.wf()
    }

    fn ceremony_pairs(&mut self) -> (r: Result<Vec<ContestantPair>, SolverError>) {
        BruteForce::ceremony_pairs(self)
    }

    fn ceremony_feedback(&mut self, num_right: usize, guess: Vec<ContestantPair>) -> (r: Result<
        (),
        SolverError,
    >) {
        BruteForce::ceremony_feedback(self, num_right, guess)
    }

    fn send_to_booth(&mut self) -> (r: Result<ContestantPair, SolverError>) {
        BruteForce::send_to_booth(self)
    }

    fn booth_feedback(&mut self, feedback: Feedback) -> (r: Result<(), SolverError>) {
        BruteForce::booth_feedback(self, feedback)
    }
}

} // verus!
