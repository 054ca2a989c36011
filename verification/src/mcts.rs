//! Monte Carlo tree search with a PUCT-style selection rule.
//!
//! The search tree is an arena: nodes live in a flat vector, children and
//! parents are integer indices, so the parent back-references of the classic
//! pointer design become plain data that the tree's well-formedness invariant
//! can speak about. Prior probabilities and selection scores are fixed-point
//! integers in millionths (see `fixed`).
use vstd::prelude::*;
use crate::fixed::{SCALE, ln_fixed_spec, sqrt_floor, isqrt, ln_fixed, lemma_sqrt_floor_bounds};

verus! {

/// Priors at or below this many millionths are treated as negligible:
/// expansion skips actions whose prior does not exceed it.
pub const PRIOR_EPSILON: u64 = 1;

/// Base exploration constant of the selection formula, in millionths (1.25).
pub const PB_C_INIT: u64 = 1_250_000;

/// Visit-count scale of the exploration constant's logarithmic growth.
pub const PB_C_BASE: u64 = 19_652;

/// Upper bound on how many legal actions a searchable state may offer.
/// Keeping the action fan-out bounded guarantees that an evenly split prior
/// still exceeds `PRIOR_EPSILON`.
pub const MAX_ACTIONS: usize = 64;

/// Sum of a sequence of fixed-point weights.
pub open spec fn sum_weights(s: Seq<u64>) -> int
    decreases s.len(),
{
    if s.len() == 0 {
        0
    } else {
        sum_weights(s.drop_last()) + s.last()
    }
}

/// The capability contract a game must satisfy to be searchable.
///
/// A state is an immutable position plus whose turn it is; every transition
/// produces a fresh state. The two sides are identified by the signs +1 and
/// -1. Probabilities are fixed-point values in millionths that must sum to
/// exactly one unit over a non-empty legal-action list.
pub trait GameState: Sized {
    type Action: Copy;

    /// Well-formedness of a state; every operation preserves it.
    spec fn inv(&self) -> bool;

    /// Whether the game has ended at this state.
    spec fn is_terminal_spec(&self) -> bool;

    /// Whose turn it is: +1 or -1.
    spec fn player_turn_spec(&self) -> int;

    /// Whether `a` is playable at this state.
    spec fn is_legal(&self, a: Self::Action) -> bool;

    /// The exact legal-action list, in the order `get_legal_actions`
    /// returns it.
    spec fn legal_actions_spec(&self) -> Seq<Self::Action>;

    /// The exact prior list that `get_policy` returns for a given action
    /// list.
    spec fn policy_spec(&self, actions: Seq<Self::Action>) -> Seq<u64>;

    /// The exact successor relation: holds of the state that
    /// `get_next_state` returns for `action`.
    spec fn is_next_state(&self, action: Self::Action, r: &Self) -> bool;

    /// Outcome indicator: +1, 0 or -1 (0 while undecided or drawn).
    spec fn result_spec(&self) -> int;

    /// Bound on the remaining game length; applying a legal action
    /// strictly decreases it, so rollouts terminate.
    spec fn measure(&self) -> nat;

    fn is_terminal(&self) -> (r: bool)
        requires
            self.inv(),
        ensures
            r == self.is_terminal_spec(),
    ;

    fn get_player_turn(&self) -> (r: i32)
        requires
            self.inv(),
        ensures
            r as int == self.player_turn_spec(),
            r == 1i32 || r == -1i32,
    ;

    fn get_legal_actions(&self) -> (r: Vec<Self::Action>)
        requires
            self.inv(),
        ensures
            forall|i: int| 0 <= i < r@.len() ==> self.is_legal(#[trigger] r@[i]),
            forall|a: Self::Action| self.is_legal(a) ==> r@.contains(a),
            !self.is_terminal_spec() ==> r@.len() > 0,
            r@.len() <= MAX_ACTIONS,
            r@ == self.legal_actions_spec(),
    ;

    fn get_policy(&self, actions: &Vec<Self::Action>) -> (r: Vec<u64>)
        requires
            self.inv(),
            forall|i: int| 0 <= i < actions@.len() ==> self.is_legal(#[trigger] actions@[i]),
            actions@.len() <= MAX_ACTIONS,
        ensures
            r@.len() == actions@.len(),
            forall|i: int| 0 <= i < r@.len() ==> #[trigger] r@[i] <= SCALE,
            actions@.len() > 0 ==> sum_weights(r@) == SCALE,
            actions@.len() > 0 ==> exists|i: int| 0 <= i < r@.len() && #[trigger] r@[i] > PRIOR_EPSILON,
            r@ == self.policy_spec(actions@),
    ;

    fn get_next_state(&self, action: Self::Action) -> (r: Self)
        requires
            self.inv(),
            self.is_legal(action),
        ensures
            r.inv(),
            r.measure() < self.measure(),
            self.is_next_state(action, &r),
    ;

    fn get_result(&self) -> (r: i32)
        requires
            self.inv(),
        ensures
            r as int == self.result_spec(),
            -1i32 <= r <= 1i32,
    ;
}

/// One position in the search tree: its state, how it was reached, and the
/// prior probabilities its own policy assigns to its legal actions.
pub struct Node<State: GameState> {
    /// The game state this node represents; exclusively owned by the node.
    pub state: State,
    /// Arena index of the parent node; `None` for the root.
    pub parent: Option<usize>,
    /// The action at the parent that produced this node; `None` for the root.
    pub parent_action: Option<State::Action>,
    /// Prior probability, in millionths, that the parent's policy assigned
    /// to `parent_action`; one whole unit for the root.
    pub prior: u64,
    /// Each legal action at this state paired with its prior in millionths,
    /// computed once at construction from this state's own policy.
    pub action_probs: Vec<(State::Action, u64)>,
}

/// Mutable per-node search statistics, updated by backpropagation.
#[derive(Clone, Copy)]
pub struct Stats {
    /// Number of simulations that passed through the node.
    pub visit_count: u64,
    /// Simulations whose (sign-adjusted) outcome at this node was +1.
    pub result_plus: u64,
    /// Simulations whose outcome at this node was 0.
    pub result_zero: u64,
    /// Simulations whose outcome at this node was -1.
    pub result_minus: u64,
}

/// The search tree: an arena of nodes with parallel per-node statistics and
/// child lists. Index 0 is the root.
pub struct Tree<State: GameState> {
    /// The nodes; a node's parent always precedes it.
    pub nodes: Vec<Node<State>>,
    /// Per-node statistics, parallel to `nodes`.
    pub stats: Vec<Stats>,
    /// Per-node lists of child indices, parallel to `nodes`; empty until the
    /// node is expanded.
    pub children: Vec<Vec<usize>>,
}

/// Parent index of a node, or -1 for the root.
pub open spec fn parent_of<State: GameState>(n: Node<State>) -> int {
    match n.parent {
        Some(p) => p as int,
        None => -1,
    }
}

/// The action probabilities a node carries are well-formed for its state:
/// all priors are genuine probabilities over legal actions, and a
/// non-terminal state puts non-negligible weight somewhere.
pub open spec fn action_probs_wf<State: GameState>(n: Node<State>) -> bool {
    &&& forall|k: int|
        0 <= k < n.action_probs@.len() ==> (#[trigger] n.action_probs@[k]).1 <= SCALE
            && n.state.is_legal(n.action_probs@[k].0)
    &&& !n.state.is_terminal_spec() ==> n.action_probs@.len() > 0 && exists|k: int|
        0 <= k < n.action_probs@.len() && (#[trigger] n.action_probs@[k]).1 > PRIOR_EPSILON
}

impl<State: GameState> Tree<State> {
    /// Visit counts tally outcomes: each node's visit count equals the sum
    /// of its three outcome counts.
    pub open spec fn stats_inv(self, i: int) -> bool {
        let st = self.stats@[i];
        st.visit_count == st.result_plus + st.result_zero + st.result_minus
    }

    /// Per-node structural invariant.
    pub open spec fn node_inv(self, i: int) -> bool {
        let n = self.nodes@[i];
        &&& n.state.inv()
        &&& n.prior <= SCALE
        &&& action_probs_wf(n)
    }

    /// A non-root node's links are consistent: its parent precedes it, the
    /// recorded action is legal at the parent, and its state is strictly
    /// closer to the end of the game than the parent's.
    pub open spec fn parent_ok(self, i: int) -> bool {
        let n = self.nodes@[i];
        &&& 0 <= parent_of(n) < i
        &&& match n.parent_action {
            Some(a) => self.nodes@[parent_of(n)].state.is_legal(a),
            None => false,
        }
        &&& n.state.measure() < self.nodes@[parent_of(n)].state.measure()
    }

    /// Well-formedness of the whole tree.
    pub open spec fn wf(self) -> bool {
        &&& self.nodes@.len() >= 1
        &&& self.stats@.len() == self.nodes@.len()
        &&& self.children@.len() == self.nodes@.len()
        &&& self.nodes@[0].parent is None
        &&& forall|i: int| #![trigger self.nodes@[i]] 1 <= i < self.nodes@.len() ==> self.parent_ok(i)
        &&& forall|i: int, k: int|
            0 <= i < self.nodes@.len() && 0 <= k < self.children@[i]@.len()
                ==> i < #[trigger] self.children@[i]@[k] < self.nodes@.len()
                && parent_of(self.nodes@[self.children@[i]@[k] as int]) == i
        &&& forall|i: int| #![trigger self.nodes@[i]] 0 <= i < self.nodes@.len() ==> self.node_inv(i)
        &&& forall|i: int| #![trigger self.stats@[i]] 0 <= i < self.nodes@.len() ==> self.stats_inv(i)
        &&& forall|i: int|
            0 <= i < self.nodes@.len()
                ==> (#[trigger] self.stats@[i]).visit_count <= self.stats@[0].visit_count
        &&& forall|i: int|
            0 <= i < self.nodes@.len() && (#[trigger] self.nodes@[i]).state.is_terminal_spec()
                ==> self.children@[i]@.len() == 0
        &&& forall|i: int, k1: int, k2: int|
            0 <= i < self.nodes@.len() && 0 <= k1 < k2 < self.children@[i]@.len()
                ==> #[trigger] self.children@[i]@[k1] != #[trigger] self.children@[i]@[k2]
    }

    /// The `k`-th immediate child of the root.
    pub open spec fn root_child(self, k: int) -> Node<State> {
        self.nodes@[self.children@[0]@[k] as int]
    }

    /// Visit count of the `k`-th immediate child of the root.
    pub open spec fn root_child_visits(self, k: int) -> u64 {
        self.stats@[self.children@[0]@[k] as int].visit_count
    }

    /// `j` lies on the parent chain from `i` up to the root (inclusive of
    /// both ends).
    pub open spec fn on_path(self, i: int, j: int) -> bool
        decreases i,
    {
        if i == j {
            true
        } else if 0 <= i < self.nodes@.len() && 0 <= parent_of(self.nodes@[i]) < i {
            self.on_path(parent_of(self.nodes@[i]), j)
        } else {
            false
        }
    }

    /// Distance from the root: number of edges on the parent chain.
    pub open spec fn depth(self, i: int) -> nat
        decreases i,
    {
        if 0 <= i < self.nodes@.len() && 0 <= parent_of(self.nodes@[i]) < i {
            1 + self.depth(parent_of(self.nodes@[i]))
        } else {
            0
        }
    }

    /// Node `j` appears in its parent's child list.
    pub open spec fn listed(self, j: int) -> bool {
        exists|k: int|
            0 <= k < self.children@[parent_of(self.nodes@[j])]@.len()
                && self.children@[parent_of(self.nodes@[j])]@[k] == j
    }

    /// Child lists are complete: every non-root node is listed under its
    /// parent (the converse direction of `wf`'s child quantifier).
    pub open spec fn linked(self) -> bool {
        forall|j: int| 1 <= j < self.nodes@.len() ==> #[trigger] self.listed(j)
    }

    /// Total visit count over the immediate children of the root: the
    /// simulations that passed through the root and descended.
    pub open spec fn root_children_visit_sum(self) -> int {
        visits_sum(self, self.children@[0]@)
    }
}

/// Total visit count over the nodes named by `idxs`.
pub open spec fn visits_sum<State: GameState>(t: Tree<State>, idxs: Seq<usize>) -> int
    decreases idxs.len(),
{
    if idxs.len() == 0 {
        0
    } else {
        visits_sum(t, idxs.drop_last()) + t.stats@[idxs.last() as int].visit_count
    }
}

/// Equal visit counts on the named nodes give equal sums.
proof fn lemma_visits_sum_equal<State: GameState>(
    t1: Tree<State>,
    t2: Tree<State>,
    idxs: Seq<usize>,
)
    requires
        forall|m: int|
            0 <= m < idxs.len() ==> t1.stats@[#[trigger] idxs[m] as int].visit_count
                == t2.stats@[idxs[m] as int].visit_count,
    ensures
        visits_sum(t1, idxs) == visits_sum(t2, idxs),
    decreases idxs.len(),
{
    if idxs.len() > 0 {
        lemma_visits_sum_equal(t1, t2, idxs.drop_last());
    }
}

/// Zero visit counts on the named nodes give a zero sum.
proof fn lemma_visits_sum_zero<State: GameState>(t: Tree<State>, idxs: Seq<usize>)
    requires
        forall|m: int| 0 <= m < idxs.len() ==> t.stats@[#[trigger] idxs[m] as int].visit_count == 0,
    ensures
        visits_sum(t, idxs) == 0,
    decreases idxs.len(),
{
    if idxs.len() > 0 {
        lemma_visits_sum_zero(t, idxs.drop_last());
    }
}

/// One named node gains a visit, every other keeps its count: the sum
/// grows by one, provided the node is named exactly once.
proof fn lemma_visits_sum_bump<State: GameState>(
    t1: Tree<State>,
    t2: Tree<State>,
    idxs: Seq<usize>,
    c: usize,
)
    requires
        exists|m: int| 0 <= m < idxs.len() && #[trigger] idxs[m] == c,
        forall|m1: int, m2: int|
            0 <= m1 < idxs.len() && 0 <= m2 < idxs.len() && #[trigger] idxs[m1] == c
                && #[trigger] idxs[m2] == c ==> m1 == m2,
        forall|m: int|
            0 <= m < idxs.len() && #[trigger] idxs[m] != c ==> t1.stats@[idxs[m] as int].visit_count
                == t2.stats@[idxs[m] as int].visit_count,
        t2.stats@[c as int].visit_count == t1.stats@[c as int].visit_count + 1,
    ensures
        visits_sum(t2, idxs) == visits_sum(t1, idxs) + 1,
    decreases idxs.len(),
{
    if idxs.last() == c {
        assert forall|m: int| 0 <= m < idxs.len() - 1 implies #[trigger] idxs.drop_last()[m]
            != c by {
            if idxs[m] == c {
                assert(m == idxs.len() - 1);
            }
        }
        lemma_visits_sum_equal(t1, t2, idxs.drop_last());
    } else {
        let m0 = choose|m0: int| 0 <= m0 < idxs.len() && #[trigger] idxs[m0] == c;
        assert(idxs.drop_last()[m0] == c);
        lemma_visits_sum_bump(t1, t2, idxs.drop_last(), c);
    }
}

/// Two nodes on one parent chain are ordered along it.
proof fn lemma_on_path_chain<State: GameState>(t: Tree<State>, leaf: int, j1: int, j2: int)
    requires
        t.on_path(leaf, j1),
        t.on_path(leaf, j2),
    ensures
        t.on_path(j1, j2) || t.on_path(j2, j1),
    decreases leaf,
{
    if leaf == j1 {
    } else if leaf == j2 {
    } else {
        lemma_on_path_chain(t, parent_of(t.nodes@[leaf]), j1, j2);
    }
}

/// Only the root lies on the root's parent chain.
proof fn lemma_on_path_from_root<State: GameState>(t: Tree<State>, j: int)
    requires
        t.wf(),
        t.on_path(0, j),
    ensures
        j == 0,
{
}

/// Every non-root node's parent chain crosses exactly one immediate child
/// of the root; this names it.
proof fn lemma_path_root_child<State: GameState>(t: Tree<State>, leaf: int) -> (j: int)
    requires
        t.wf(),
        1 <= leaf < t.nodes@.len(),
    ensures
        1 <= j < t.nodes@.len(),
        t.on_path(leaf, j),
        parent_of(t.nodes@[j]) == 0,
    decreases leaf,
{
    assert(t.parent_ok(leaf));
    let p = parent_of(t.nodes@[leaf]);
    if p == 0 {
        leaf
    } else {
        let j = lemma_path_root_child(t, p);
        assert(t.on_path(p, p));
        assert(t.on_path(leaf, p));
        lemma_on_path_trans(t, leaf, p, j);
        j
    }
}

/// At most one immediate child of the root lies on any parent chain.
proof fn lemma_root_child_unique<State: GameState>(t: Tree<State>, leaf: int, j1: int, j2: int)
    requires
        t.wf(),
        t.on_path(leaf, j1),
        t.on_path(leaf, j2),
        1 <= j1 < t.nodes@.len(),
        1 <= j2 < t.nodes@.len(),
        parent_of(t.nodes@[j1]) == 0,
        parent_of(t.nodes@[j2]) == 0,
    ensures
        j1 == j2,
{
    lemma_on_path_chain(t, leaf, j1, j2);
    if j1 != j2 {
        if t.on_path(j1, j2) {
            assert(t.on_path(0, j2));
            lemma_on_path_from_root(t, j2);
        } else {
            assert(t.on_path(0, j1));
            lemma_on_path_from_root(t, j1);
        }
    }
}

/// A result seen `k` levels further down the tree, from this level's
/// perspective: each level up belongs to the opposing player, so the sign
/// alternates.
pub open spec fn flip(r: int, k: nat) -> int {
    if k % 2 == 0 {
        r
    } else {
        -r
    }
}

/// Everything on the parent chain has a smaller-or-equal index.
proof fn lemma_on_path_le<State: GameState>(t: Tree<State>, i: int, j: int)
    requires
        t.on_path(i, j),
    ensures
        j <= i,
    decreases i,
{
    if i == j {
    } else {
        lemma_on_path_le(t, parent_of(t.nodes@[i]), j);
    }
}

/// In a well-formed tree every parent chain reaches the root: combined
/// with `backpropagate`'s contract, a simulation observed at a node of
/// depth `d` credits the root with the outcome times `(-1)^d`.
pub proof fn lemma_on_path_root<State: GameState>(t: Tree<State>, i: int)
    requires
        t.wf(),
        0 <= i < t.nodes@.len(),
    ensures
        t.on_path(i, 0),
    decreases i,
{
    if i == 0 {
    } else {
        assert(t.parent_ok(i));
        lemma_on_path_root(t, parent_of(t.nodes@[i]));
    }
}

/// Visit counts tally outcomes: in a well-formed tree — and the tree is
/// well-formed after any sequence of searches and backpropagations — every
/// node's visit count equals the sum of its three outcome counts.
pub proof fn lemma_visit_count_tallies_outcomes<State: GameState>(t: Tree<State>, i: int)
    requires
        t.wf(),
        0 <= i < t.nodes@.len(),
    ensures
        t.stats@[i].visit_count == t.stats@[i].result_plus + t.stats@[i].result_zero
            + t.stats@[i].result_minus,
{
    assert(t.stats_inv(i));
}

/// The fixed-point mean outcome of a node, in millionths: the difference of
/// won and lost simulations over the visit count, or -1 whole unit for an
/// unvisited node.
pub open spec fn spec_q(st: Stats) -> int {
    if st.visit_count > 0 {
        if st.result_plus >= st.result_minus {
            (st.result_plus - st.result_minus) * SCALE / st.visit_count as int
        } else {
            -((st.result_minus - st.result_plus) * SCALE / st.visit_count as int)
        }
    } else {
        -(SCALE as int)
    }
}

/// Exploration constant for a parent with `n_visit` visits, in millionths:
/// `PB_C_INIT + ln((n_visit + PB_C_BASE + 1) / PB_C_BASE)`.
pub open spec fn spec_pb_c(n_visit: int) -> int {
    PB_C_INIT + ln_fixed_spec((n_visit + PB_C_BASE + 1) * SCALE / PB_C_BASE as int)
}

/// Exploration term of the selection score, in millionths:
/// `sqrt(n_visit) * pb_c * prior / (visit_count + 1)`.
pub open spec fn spec_policy_score(prior: int, child_visit: int, n_visit: int) -> int {
    sqrt_floor((n_visit * SCALE * SCALE) as nat) * spec_pb_c(n_visit) * prior / ((child_visit
        + 1) * SCALE * SCALE)
}

/// The full selection score of a child under a parent with `n_visit` visits:
/// the value term `(1 - q) / 2` plus the exploration term.
pub open spec fn spec_uct(st: Stats, prior: u64, n_visit: int) -> int {
    (SCALE - spec_q(st)) / 2 + spec_policy_score(prior as int, st.visit_count as int, n_visit)
}

/// Selection score of the `k`-th child of node `i`.
pub open spec fn child_score<State: GameState>(t: Tree<State>, i: int, k: int) -> int {
    let c = t.children@[i]@[k] as int;
    spec_uct(t.stats@[c], t.nodes@[c].prior, t.stats@[i].visit_count as int)
}

/// Draws an index at random, weighted by fixed-point weights.
///
/// Relies on rand's `WeightedIndex` (with `thread_rng`): `new` succeeds for a
/// non-empty list of unsigned weights whose total is positive and does not
/// overflow, and `sample` returns an in-bounds index whose weight is
/// positive. Which index comes back is up to the generator; callers may rely
/// on nothing more.
#[verifier::external_body]
fn sample_weighted(weights: &Vec<u64>) -> (idx: usize)
    requires
        weights@.len() > 0,
        0 < sum_weights(weights@) <= u64::MAX,
    ensures
        idx < weights@.len(),
        weights@[idx as int] > 0,
{
    let dist = rand::distributions::WeightedIndex::new(weights).unwrap();
    rand::distributions::Distribution::sample(&dist, &mut rand::thread_rng())
}

/// A fraction of at most one, in millionths, stays at most one unit.
proof fn lemma_ratio_le_scale(d: int, v: int, s: int)
    requires
        0 <= d <= v,
        0 < v,
        0 < s,
    ensures
        d * s / v <= s,
{
    vstd::arithmetic::mul::lemma_mul_inequality(d, v, s);
    vstd::arithmetic::div_mod::lemma_div_is_ordered(d * s, v * s, v);
    vstd::arithmetic::div_mod::lemma_div_multiples_vanish(s, v);
}

/// The selection score of a child, computed in fixed point.
pub fn uct_score(st: Stats, prior: u64, node_visit: u64) -> (r: u64)
    requires
        node_visit <= u32::MAX,
        st.visit_count <= u32::MAX,
        st.result_plus + st.result_zero + st.result_minus == st.visit_count,
        prior <= SCALE,
    ensures
        r as int == spec_uct(st, prior, node_visit as int),
{
    let q: i64 = if st.visit_count > 0 {
        if st.result_plus >= st.result_minus {
            ((st.result_plus - st.result_minus) * SCALE / st.visit_count) as i64
        } else {
            -(((st.result_minus - st.result_plus) * SCALE / st.visit_count) as i64)
        }
    } else {
        -(SCALE as i64)
    };
    proof {
        if st.visit_count > 0 {
            if st.result_plus >= st.result_minus {
                lemma_ratio_le_scale(
                    st.result_plus - st.result_minus,
                    st.visit_count as int,
                    SCALE as int,
                );
            } else {
                lemma_ratio_le_scale(
                    st.result_minus - st.result_plus,
                    st.visit_count as int,
                    SCALE as int,
                );
            }
        }
    }
    let value_score: u64 = ((SCALE as i64 - q) / 2) as u64;

    let ln_arg: u64 = (node_visit + PB_C_BASE + 1) * SCALE / PB_C_BASE;
    proof {
        assert(ln_arg >= SCALE) by (nonlinear_arith)
            requires
                ln_arg == (node_visit + PB_C_BASE + 1) * SCALE / PB_C_BASE as int,
                node_visit >= 0,
                PB_C_BASE == 19_652,
                SCALE == 1_000_000,
        {
        }
    }
    let pb_c: u64 = PB_C_INIT + ln_fixed(ln_arg);

    proof {
        assert((node_visit as u128) * (SCALE as u128) < 0x1_0000_0000_0000_0000u128
            && (node_visit as u128) * (SCALE as u128) * (SCALE as u128)
            < 0x1_0000_0000_0000_0000_0000u128) by (nonlinear_arith)
            requires
                node_visit <= u32::MAX,
                SCALE == 1_000_000,
        {
        }
    }
    let sqrt_ns: u128 = isqrt((node_visit as u128) * (SCALE as u128) * (SCALE as u128));
    proof {
        lemma_sqrt_floor_bounds((node_visit * SCALE * SCALE) as nat);
        assert(sqrt_ns < 0x1_0000_0000_0000u128) by (nonlinear_arith)
            requires
                sqrt_ns * sqrt_ns <= node_visit as int * SCALE as int * SCALE as int,
                node_visit <= u32::MAX,
                SCALE == 1_000_000,
        {
        }
    }
    proof {
        assert(sqrt_ns * (pb_c as u128) < 0x1_0000_0000_0000_0000_0000u128
            && sqrt_ns * (pb_c as u128) * (prior as u128)
            < 0x1_0000_0000_0000_0000_0000_0000u128) by (nonlinear_arith)
            requires
                sqrt_ns < 0x1_0000_0000_0000u128,
                pb_c <= 49_250_000,
                prior <= 1_000_000,
        {
        }
    }
    let num: u128 = sqrt_ns * (pb_c as u128) * (prior as u128);
    proof {
        assert((st.visit_count as u128 + 1) * (SCALE as u128) * (SCALE as u128)
            <= 0x2_0000_0000u128 * 1_000_000_000_000u128) by (nonlinear_arith)
            requires
                st.visit_count <= u32::MAX,
                SCALE == 1_000_000,
        {
        }
    }
    let den: u128 = (st.visit_count as u128 + 1) * (SCALE as u128) * (SCALE as u128);
    proof {
        assert(den >= 1_000_000_000_000int && den > 0) by (nonlinear_arith)
            requires
                den == (st.visit_count as int + 1) * (SCALE as int) * (SCALE as int),
                st.visit_count >= 0,
                SCALE == 1_000_000,
        {
        }
        vstd::arithmetic::div_mod::lemma_div_is_ordered_by_denominator(
            num as int,
            1_000_000_000_000int,
            den as int,
        );
        assert(num as int / 1_000_000_000_000int <= 0x1_0000_0000_0000_0000_0000_0000int
            / 1_000_000_000_000int) by (nonlinear_arith)
            requires
                num < 0x1_0000_0000_0000_0000_0000_0000int,
        {
        }
    }
    let policy_score: u64 = (num / den) as u64;
    value_score + policy_score
}

impl<State: GameState> Node<State> {
    /// Builds a node for `state`: queries the state's legal actions and its
    /// policy once, and records each action with its prior.
    pub fn new(state: State, parent: Option<usize>, parent_action: Option<State::Action>) -> (n:
        Node<State>)
        requires
            state.inv(),
        ensures
            n.state == state,
            n.parent == parent,
            n.parent_action == parent_action,
            n.prior == SCALE,
            action_probs_wf(n),
            n.action_probs@.len() == state.legal_actions_spec().len(),
            forall|k: int|
                0 <= k < n.action_probs@.len() ==> #[trigger] n.action_probs@[k] == (
                state.legal_actions_spec()[k],
                state.policy_spec(state.legal_actions_spec())[k],
            ),
            state.legal_actions_spec().len() > 0 ==> sum_weights(
                state.policy_spec(state.legal_actions_spec()),
            ) == SCALE,
    {
        let actions = state.get_legal_actions();
        let probs = state.get_policy(&actions);
        let mut action_probs: Vec<(State::Action, u64)> = Vec::new();
        let mut k: usize = 0;
        while k < actions.len()
            invariant
                k <= actions@.len(),
                probs@.len() == actions@.len(),
                action_probs@.len() == k,
                forall|m: int| 0 <= m < k ==> #[trigger] action_probs@[m] == (actions@[m], probs@[m]),
                forall|i: int| 0 <= i < actions@.len() ==> state.is_legal(#[trigger] actions@[i]),
                forall|i: int| 0 <= i < probs@.len() ==> #[trigger] probs@[i] <= SCALE,
            decreases actions@.len() - k,
        {
            action_probs.push((actions[k], probs[k]));
            k = k + 1;
        }
        let n = Node { state, parent, parent_action, prior: SCALE, action_probs };
        proof {
            if !n.state.is_terminal_spec() {
                let i = choose|i: int| 0 <= i < probs@.len() && probs@[i] > PRIOR_EPSILON;
                assert(n.action_probs@[i].1 > PRIOR_EPSILON);
            }
        }
        n
    }
}

impl<State: GameState> Tree<State> {
    /// Builds a fresh tree around a parentless root node: all statistics
    /// start at zero and nothing is expanded.
    pub fn new(root: Node<State>) -> (t: Tree<State>)
        requires
            root.state.inv(),
            root.parent is None,
            root.prior <= SCALE,
            action_probs_wf(root),
        ensures
            t.wf(),
            t.linked(),
            t.nodes@.len() == 1,
            t.nodes@[0] == root,
            t.stats@[0].visit_count == 0,
            t.children@[0]@.len() == 0,
            t.root_children_visit_sum() == 0,
    {
        let mut nodes: Vec<Node<State>> = Vec::new();
        nodes.push(root);
        let mut stats: Vec<Stats> = Vec::new();
        stats.push(Stats { visit_count: 0, result_plus: 0, result_zero: 0, result_minus: 0 });
        let mut children: Vec<Vec<usize>> = Vec::new();
        children.push(Vec::new());
        Tree { nodes, stats, children }
    }
}

/// Plays random moves from `state` to the end of the game, choosing each
/// move according to the state's own policy weights, and reports the
/// terminal outcome from the perspective of the player to move at `state`.
pub fn rollout<State: GameState>(state: &State) -> (r: i32)
    requires
        state.inv(),
    ensures
        -1i32 <= r <= 1i32,
        state.is_terminal_spec() ==> r as int == state.result_spec(),
{
    let leaf_turn = state.get_player_turn();
    if state.is_terminal() {
        return state.get_result();
    }
    let actions = state.get_legal_actions();
    let weights = state.get_policy(&actions);
    let idx = sample_weighted(&weights);
    let mut cur: State = state.get_next_state(actions[idx]);
    while !cur.is_terminal()
        invariant
            cur.inv(),
        decreases cur.measure(),
    {
        let actions = cur.get_legal_actions();
        let weights = cur.get_policy(&actions);
        let idx = sample_weighted(&weights);
        cur = cur.get_next_state(actions[idx]);
    }
    let result = cur.get_result();
    if leaf_turn == cur.get_player_turn() {
        result
    } else {
        -result
    }
}


/// The parent chain is transitive: what lies above `b` lies above `a`
/// whenever `b` lies above `a`.
proof fn lemma_on_path_trans<State: GameState>(t: Tree<State>, a: int, b: int, c: int)
    requires
        t.on_path(a, b),
        t.on_path(b, c),
    ensures
        t.on_path(a, c),
    decreases a,
{
    if a == b {
    } else {
        lemma_on_path_trans(t, parent_of(t.nodes@[a]), b, c);
    }
}

/// Depth never grows while walking up the parent chain.
proof fn lemma_on_path_depth<State: GameState>(t: Tree<State>, i: int, j: int)
    requires
        t.on_path(i, j),
    ensures
        t.depth(j) <= t.depth(i),
    decreases i,
{
    if i == j {
    } else {
        lemma_on_path_depth(t, parent_of(t.nodes@[i]), j);
    }
}

/// The entries among the first `n` of `probs` whose prior exceeds the
/// negligibility threshold, in order: expansion creates one child per such
/// entry.
pub open spec fn qualifying_prefix<A>(probs: Seq<(A, u64)>, n: int) -> Seq<(A, u64)>
    decreases n,
{
    if n <= 0 {
        Seq::empty()
    } else {
        qualifying_prefix(probs, n - 1) + (if probs[n - 1].1 > PRIOR_EPSILON {
            seq![probs[n - 1]]
        } else {
            Seq::empty()
        })
    }
}

/// All entries of `probs` whose prior exceeds the threshold, in order.
pub open spec fn qualifying<A>(probs: Seq<(A, u64)>) -> Seq<(A, u64)> {
    qualifying_prefix(probs, probs.len() as int)
}

/// A non-negligible entry makes the qualifying list non-empty.
pub proof fn lemma_qualifying_pos<A>(probs: Seq<(A, u64)>, k: int, n: int)
    requires
        0 <= k < n,
        probs[k].1 > PRIOR_EPSILON,
    ensures
        qualifying_prefix(probs, n).len() > 0,
    decreases n,
{
    if k < n - 1 {
        lemma_qualifying_pos(probs, k, n - 1);
    }
}

/// Node `kid` of `t` records exactly the qualifying entry `entry` of its
/// parent: the entry's action and prior, and a state that is the action's
/// successor of `parent_state`.
pub open spec fn kid_matches<State: GameState>(
    t: Tree<State>,
    kid: int,
    entry: (State::Action, u64),
    parent_state: State,
) -> bool {
    t.nodes@[kid].parent_action == Some(entry.0) && t.nodes@[kid].prior == entry.1
        && parent_state.is_next_state(entry.0, &t.nodes@[kid].state)
}

/// A node's statistics after one backpropagation step that observed the
/// outcome `v` at this node: one more visit, and the count of `v` is up by
/// one.
pub open spec fn bumped(st: Stats, v: int) -> Stats {
    Stats {
        visit_count: (st.visit_count + 1) as u64,
        result_plus: if v == 1 { (st.result_plus + 1) as u64 } else { st.result_plus },
        result_zero: if v == 0 { (st.result_zero + 1) as u64 } else { st.result_zero },
        result_minus: if v == -1 { (st.result_minus + 1) as u64 } else { st.result_minus },
    }
}

impl<State: GameState> Tree<State> {
    /// Picks the best immediate child of node `i` by selection score: the
    /// first child whose score is maximal (ties keep the earlier child).
    pub fn best_child(&self, i: usize) -> (c: usize)
        requires
            self.wf(),
            i < self.nodes@.len(),
            self.children@[i as int]@.len() > 0,
            self.stats@[0].visit_count <= u32::MAX,
        ensures
            self.children@[i as int]@.contains(c),
            exists|kk: int|
                0 <= kk < self.children@[i as int]@.len() && self.children@[i as int]@[kk] == c
                    && (forall|j: int|
                    0 <= j < self.children@[i as int]@.len() ==> child_score(*self, i as int, j)
                        <= child_score(*self, i as int, kk)) && (forall|j: int|
                    0 <= j < kk ==> child_score(*self, i as int, j) < child_score(
                        *self,
                        i as int,
                        kk,
                    )),
    {
        let n_visit = self.stats[i].visit_count;
        let n_children = self.children[i].len();
        let mut best: usize = self.children[i][0];
        let ghost mut best_pos: int = 0;
        proof {
            assert(self.stats_inv(best as int));
            assert(self.node_inv(best as int));
            assert(self.stats@[best as int].visit_count <= self.stats@[0].visit_count);
            assert(self.stats@[i as int].visit_count <= self.stats@[0].visit_count);
        }
        let mut best_score: u64 = uct_score(self.stats[best], self.nodes[best].prior, n_visit);
        let mut k: usize = 1;
        while k < n_children
            invariant
                self.wf(),
                i < self.nodes@.len(),
                self.stats@[0].visit_count <= u32::MAX,
                n_children == self.children@[i as int]@.len(),
                n_visit == self.stats@[i as int].visit_count,
                1 <= k <= n_children,
                0 <= best_pos < k,
                self.children@[i as int]@[best_pos] == best,
                best_score as int == child_score(*self, i as int, best_pos),
                forall|j: int|
                    0 <= j < k ==> child_score(*self, i as int, j) <= best_score as int,
                forall|j: int|
                    0 <= j < best_pos ==> child_score(*self, i as int, j) < best_score as int,
            decreases n_children - k,
        {
            let ck = self.children[i][k];
            proof {
                assert(self.stats_inv(ck as int));
                assert(self.node_inv(ck as int));
                assert(self.stats@[ck as int].visit_count <= self.stats@[0].visit_count);
            }
            let sc = uct_score(self.stats[ck], self.nodes[ck].prior, n_visit);
            if sc > best_score {
                best = ck;
                best_score = sc;
                proof {
                    best_pos = k as int;
                }
            }
            k = k + 1;
        }
        proof {
            assert(self.children@[i as int]@[best_pos] == best);
        }
        best
    }

    /// Expands a non-terminal, never-expanded node: attaches one child per
    /// legal action whose prior exceeds `PRIOR_EPSILON`, each child built
    /// from the successor state with its own fresh action probabilities.
    pub fn expand(&mut self, i: usize)
        requires
            old(self).wf(),
            old(self).linked(),
            i < old(self).nodes@.len(),
            !old(self).nodes@[i as int].state.is_terminal_spec(),
            old(self).children@[i as int]@.len() == 0,
        ensures
            final(self).wf(),
            final(self).linked(),
            final(self).root_children_visit_sum() == old(self).root_children_visit_sum(),
            final(self).nodes@.len() >= old(self).nodes@.len(),
            forall|j: int|
                0 <= j < old(self).nodes@.len() ==> final(self).nodes@[j] == old(self).nodes@[j],
            forall|j: int|
                0 <= j < old(self).nodes@.len() ==> final(self).stats@[j] == old(self).stats@[j],
            forall|j: int|
                0 <= j < old(self).nodes@.len() && j != i ==> final(self).children@[j]@ == old(
                    self,
                ).children@[j]@,
            final(self).children@[i as int]@.len() == qualifying(
                old(self).nodes@[i as int].action_probs@,
            ).len(),
            final(self).children@[i as int]@.len() > 0,
            forall|j: int|
                old(self).nodes@.len() <= j < final(self).nodes@.len()
                    ==> final(self).children@[j]@.len() == 0,
            forall|j: int|
                old(self).nodes@.len() <= j < final(self).nodes@.len()
                    ==> final(self).stats@[j] == (Stats {
                    visit_count: 0,
                    result_plus: 0,
                    result_zero: 0,
                    result_minus: 0,
                }),
            forall|m: int|
                0 <= m < final(self).children@[i as int]@.len()
                    ==> old(self).nodes@.len() <= #[trigger] final(self).children@[i as int]@[m],
            forall|m: int|
                #![trigger final(self).children@[i as int]@[m]]
                0 <= m < final(self).children@[i as int]@.len() ==> kid_matches(
                    *final(self),
                    final(self).children@[i as int]@[m] as int,
                    qualifying(old(self).nodes@[i as int].action_probs@)[m],
                    old(self).nodes@[i as int].state,
                ),
    {
        let ghost n0 = old(self).nodes@.len() as int;
        let n_actions = self.nodes[i].action_probs.len();
        let mut kids: Vec<usize> = Vec::new();
        let mut k: usize = 0;
        while k < n_actions
            invariant
                self.wf(),
                i < n0 <= self.nodes@.len(),
                n_actions == self.nodes@[i as int].action_probs@.len(),
                k <= n_actions,
                forall|j: int| 0 <= j < n0 ==> self.nodes@[j] == old(self).nodes@[j],
                forall|j: int| 0 <= j < n0 ==> self.stats@[j] == old(self).stats@[j],
                forall|j: int| 0 <= j < n0 ==> self.children@[j]@ == old(self).children@[j]@,
                old(self).linked(),
                kids@.len() == self.nodes@.len() - n0,
                forall|m: int| 0 <= m < kids@.len() ==> #[trigger] kids@[m] as int == n0 + m,
                old(self).children@[i as int]@.len() == 0,
                !old(self).nodes@[i as int].state.is_terminal_spec(),
                forall|j: int| n0 <= j < self.nodes@.len() ==> self.children@[j]@.len() == 0,
                forall|j: int|
                    n0 <= j < self.nodes@.len() ==> self.stats@[j] == (Stats {
                        visit_count: 0,
                        result_plus: 0,
                        result_zero: 0,
                        result_minus: 0,
                    }),
                forall|m: int|
                    0 <= m < kids@.len() ==> n0 <= #[trigger] kids@[m] < self.nodes@.len()
                        && parent_of(self.nodes@[kids@[m] as int]) == i,
                kids@.len() == qualifying_prefix(
                    self.nodes@[i as int].action_probs@,
                    k as int,
                ).len(),
                forall|m: int|
                    #![trigger kids@[m]]
                    0 <= m < kids@.len() ==> kid_matches(
                        *self,
                        kids@[m] as int,
                        qualifying_prefix(self.nodes@[i as int].action_probs@, k as int)[m],
                        self.nodes@[i as int].state,
                    ),
            decreases n_actions - k,
        {
            let pair = self.nodes[i].action_probs[k];
            proof {
                assert(self.node_inv(i as int));
                assert(self.nodes@[i as int].action_probs@[k as int] == pair);
                assert(self.nodes@[i as int].state.is_legal(pair.0));
            }
            if pair.1 > PRIOR_EPSILON {
                let child_state = self.nodes[i].state.get_next_state(pair.0);
                let mut child = Node::new(child_state, Some(i), Some(pair.0));
                child.prior = pair.1;
                let idx = self.nodes.len();
                self.nodes.push(child);
                self.stats.push(
                    Stats { visit_count: 0, result_plus: 0, result_zero: 0, result_minus: 0 },
                );
                self.children.push(Vec::new());
                kids.push(idx);
                proof {
                    let p = self.nodes@[i as int].action_probs@;
                    assert(qualifying_prefix(p, k + 1) == qualifying_prefix(p, k as int)
                        + seq![pair]);
                    assert(kids@[kids@.len() - 1] == idx);
                    assert(kid_matches(
                        *self,
                        idx as int,
                        pair,
                        self.nodes@[i as int].state,
                    ));
                }
            } else {
                proof {
                    let p = self.nodes@[i as int].action_probs@;
                    assert(qualifying_prefix(p, k + 1) =~= qualifying_prefix(p, k as int));
                }
            }
            k = k + 1;
        }
        proof {
            assert(self.node_inv(i as int));
            let p = self.nodes@[i as int].action_probs@;
            if !self.nodes@[i as int].state.is_terminal_spec() {
                let kw = choose|kw: int|
                    0 <= kw < p.len() && (#[trigger] p[kw]).1 > PRIOR_EPSILON;
                lemma_qualifying_pos(p, kw, n_actions as int);
            }
            assert(kids@.len() > 0);
        }
        let ghost kids_v = kids@;
        self.children[i] = kids;
        proof {
            let t0 = *old(self);
            assert(self.children@[i as int]@ == kids_v);
            assert forall|m: int|
                0 <= m < kids_v.len() implies #[trigger] self.children@[i as int]@[m] as int == n0
                + m && parent_of(self.nodes@[self.children@[i as int]@[m] as int]) == i by {
                assert(kids_v[m] as int == n0 + m);
                assert(parent_of(self.nodes@[kids_v[m] as int]) == i);
                assert(self.children@[i as int]@[m] == kids_v[m]);
            }
            assert forall|j: int| 1 <= j < self.nodes@.len() implies #[trigger] self.listed(
                j,
            ) by {
                if j < n0 {
                    assert(t0.parent_ok(j));
                    assert(t0.listed(j));
                    let pj = parent_of(t0.nodes@[j]);
                    let k0 = choose|k0: int|
                        0 <= k0 < t0.children@[pj]@.len() && t0.children@[pj]@[k0] == j;
                    assert(pj != i) by {
                        if pj == i {
                            assert(t0.children@[i as int]@.len() == 0);
                        }
                    }
                    assert(self.children@[pj]@ == t0.children@[pj]@);
                    assert(self.children@[pj]@[k0] == j);
                } else {
                    assert(self.children@[i as int]@[j - n0] == kids_v[j - n0]);
                    assert(kids_v[j - n0] as int == j);
                    assert(parent_of(self.nodes@[kids_v[j - n0] as int]) == i);
                    assert(parent_of(self.nodes@[j]) == i);
                }
            }
            let idxs = t0.children@[0]@;
            if i == 0 {
                assert(visits_sum(t0, idxs) == 0);
                assert forall|m: int|
                    0 <= m < kids_v.len() implies self.stats@[#[trigger] kids_v[m] as int].visit_count
                    == 0 by {
                }
                lemma_visits_sum_zero(*self, kids_v);
            } else {
                assert(self.children@[0]@ == idxs);
                assert forall|m: int|
                    0 <= m < idxs.len() implies t0.stats@[#[trigger] idxs[m] as int].visit_count
                    == self.stats@[idxs[m] as int].visit_count by {
                    assert(0 <= idxs[m] < t0.nodes@.len());
                }
                lemma_visits_sum_equal(t0, *self, idxs);
            }
        }
    }

    /// One selection pass: descend from the root along best-scoring
    /// children while the current node is non-terminal and expanded; on
    /// reaching a non-terminal, un-expanded node, expand it and step once
    /// more to its best child; stop at a terminal node.
    ///
    /// Never touches statistics, and never repopulates an already-populated
    /// child list.
    #[verifier::rlimit(50)]
    pub fn select_node(&mut self) -> (leaf: usize)
        requires
            old(self).wf(),
            old(self).linked(),
            old(self).stats@[0].visit_count <= u32::MAX,
        ensures
            final(self).wf(),
            final(self).linked(),
            final(self).root_children_visit_sum() == old(self).root_children_visit_sum(),
            leaf < final(self).nodes@.len(),
            final(self).nodes@.len() >= old(self).nodes@.len(),
            forall|j: int|
                0 <= j < old(self).nodes@.len() ==> final(self).nodes@[j] == old(self).nodes@[j],
            forall|j: int|
                0 <= j < old(self).nodes@.len() ==> final(self).stats@[j] == old(self).stats@[j],
            forall|j: int|
                0 <= j < old(self).nodes@.len() && old(self).children@[j]@.len() > 0
                    ==> final(self).children@[j]@ == old(self).children@[j]@,
            forall|j1: int, j2: int|
                #![trigger final(self).children@[j1]@, final(self).children@[j2]@]
                (0 <= j1 < old(self).nodes@.len() && final(self).children@[j1]@
                    != old(self).children@[j1]@ && 0 <= j2 < old(self).nodes@.len() && final(self).children@[j2]@
                    != old(self).children@[j2]@) ==> j1 == j2,
            forall|j: int|
                old(self).nodes@.len() <= j < final(self).nodes@.len()
                    ==> final(self).children@[j]@.len() == 0,
            !old(self).nodes@[0].state.is_terminal_spec() ==> final(self).children@[0]@.len() > 0,
            !old(self).nodes@[0].state.is_terminal_spec() ==> leaf != 0,
            final(self).nodes@[leaf as int].state.is_terminal_spec()
                || (final(self).children@[leaf as int]@.len() == 0 && final(self).stats@[leaf as int] == (Stats {
                visit_count: 0,
                result_plus: 0,
                result_zero: 0,
                result_minus: 0,
            })),
    {
        let mut cur: usize = 0;
        while !self.nodes[cur].state.is_terminal()
            invariant
                self.wf(),
                cur < self.nodes@.len(),
                self.stats@[0].visit_count <= u32::MAX,
                old(self).linked(),
                *self == *old(self),
                cur == 0 || self.children@[0]@.len() > 0,
            decreases self.nodes@[cur as int].state.measure(),
        {
            if self.children[cur].len() == 0 {
                let ghost pre_len = self.nodes@.len();
                self.expand(cur);
                let c = self.best_child(cur);
                proof {
                    let kk = choose|kk: int|
                        0 <= kk < self.children@[cur as int]@.len()
                            && self.children@[cur as int]@[kk] == c;
                    assert(pre_len <= self.children@[cur as int]@[kk]);
                    assert(self.children@[c as int]@.len() == 0);
                    assert(self.stats@[c as int] == (Stats {
                        visit_count: 0,
                        result_plus: 0,
                        result_zero: 0,
                        result_minus: 0,
                    }));
                }
                return c;
            } else {
                let c = self.best_child(cur);
                proof {
                    let kk = choose|kk: int|
                        0 <= kk < self.children@[cur as int]@.len()
                            && self.children@[cur as int]@[kk] == c;
                    assert(self.parent_ok(c as int));
                }
                cur = c;
            }
        }
        cur
    }

    /// Walks from node `i` up to the root, crediting the simulation to every
    /// node on the way: each gets one more visit and one more count of the
    /// outcome as seen from its own level, the outcome's sign alternating
    /// from level to level.
    pub fn backpropagate(&mut self, i: usize, result: i32)
        requires
            old(self).wf(),
            old(self).linked(),
            i < old(self).nodes@.len(),
            -1i32 <= result <= 1i32,
            old(self).stats@[0].visit_count < u64::MAX,
        ensures
            final(self).wf(),
            final(self).linked(),
            final(self).root_children_visit_sum() == old(self).root_children_visit_sum() + (
            if i == 0 {
                0int
            } else {
                1int
            }),
            final(self).nodes@ == old(self).nodes@,
            final(self).children@ == old(self).children@,
            final(self).stats@.len() == old(self).stats@.len(),
            forall|j: int|
                0 <= j < final(self).stats@.len() && old(self).on_path(i as int, j)
                    ==> final(self).stats@[j] == bumped(
                    old(self).stats@[j],
                    flip(
                        result as int,
                        (old(self).depth(i as int) - old(self).depth(j)) as nat,
                    ),
                ),
            forall|j: int|
                0 <= j < final(self).stats@.len() && !old(self).on_path(i as int, j)
                    ==> final(self).stats@[j] == old(self).stats@[j],
            final(self).stats@[0].visit_count == old(self).stats@[0].visit_count + 1,
    {
        let mut cur_opt: Option<usize> = Some(i);
        let mut cur_r: i32 = result;
        while cur_opt.is_some()
            invariant
                old(self).wf(),
                i < old(self).nodes@.len(),
                -1i32 <= result <= 1i32,
                old(self).stats@[0].visit_count < u64::MAX,
                self.nodes@ == old(self).nodes@,
                self.children@ == old(self).children@,
                self.stats@.len() == old(self).stats@.len(),
                -1i32 <= cur_r <= 1i32,
                match cur_opt {
                    Some(c) => c < old(self).nodes@.len() && old(self).on_path(i as int, c as int)
                        && cur_r as int == flip(
                        result as int,
                        (old(self).depth(i as int) - old(self).depth(c as int)) as nat,
                    ) && (forall|j: int|
                        0 <= j < self.stats@.len() && old(self).on_path(i as int, j) && !old(
                            self,
                        ).on_path(c as int, j) ==> self.stats@[j] == bumped(
                            old(self).stats@[j],
                            flip(
                                result as int,
                                (old(self).depth(i as int) - old(self).depth(j)) as nat,
                            ),
                        )) && (forall|j: int|
                        0 <= j < self.stats@.len() && !(old(self).on_path(i as int, j) && !old(
                            self,
                        ).on_path(c as int, j)) ==> self.stats@[j] == old(self).stats@[j]),
                    None => (forall|j: int|
                        0 <= j < self.stats@.len() && old(self).on_path(i as int, j)
                            ==> self.stats@[j] == bumped(
                            old(self).stats@[j],
                            flip(
                                result as int,
                                (old(self).depth(i as int) - old(self).depth(j)) as nat,
                            ),
                        )) && (forall|j: int|
                        0 <= j < self.stats@.len() && !old(self).on_path(i as int, j)
                            ==> self.stats@[j] == old(self).stats@[j]),
                },
            decreases
                    (match cur_opt {
                        Some(c) => c as int + 1,
                        None => 0int,
                    }),
        {
            let c = cur_opt.unwrap();
            proof {
                lemma_on_path_le(*old(self), i as int, c as int);
                assert(old(self).on_path(c as int, c as int));
                assert(self.stats@[c as int] == old(self).stats@[c as int]);
            }
            proof {
                assert(old(self).stats_inv(c as int));
                assert(old(self).stats@[c as int].visit_count
                    <= old(self).stats@[0].visit_count);
            }
            let st = self.stats[c];
            let new_st = Stats {
                visit_count: st.visit_count + 1,
                result_plus: if cur_r == 1 {
                    st.result_plus + 1
                } else {
                    st.result_plus
                },
                result_zero: if cur_r == 0 {
                    st.result_zero + 1
                } else {
                    st.result_zero
                },
                result_minus: if cur_r == -1 {
                    st.result_minus + 1
                } else {
                    st.result_minus
                },
            };
            self.stats[c] = new_st;
            let next = self.nodes[c].parent;
            proof {
                let ghost t0 = *old(self);
                let ghost ci = c as int;
                assert(new_st == bumped(t0.stats@[ci], cur_r as int));
                match next {
                    Some(p) => {
                        assert(t0.parent_ok(ci) || ci == 0);
                        assert(ci != 0) by {
                            if ci == 0 {
                                assert(t0.nodes@[0].parent is None);
                            }
                        }
                        let pi = p as int;
                        assert(parent_of(t0.nodes@[ci]) == pi);
                        assert(t0.on_path(pi, pi));
                        assert(t0.on_path(ci, pi));
                        lemma_on_path_trans(t0, i as int, ci, pi);
                        assert(t0.depth(ci) == 1 + t0.depth(pi));
                        lemma_on_path_depth(t0, i as int, ci);
                        lemma_on_path_depth(t0, ci, pi);
                        assert forall|j: int| t0.on_path(ci, j) implies (j == ci || t0.on_path(
                            pi,
                            j,
                        )) by {
                        }
                        assert forall|j: int| t0.on_path(pi, j) implies t0.on_path(ci, j) by {
                        }
                        assert(!t0.on_path(pi, ci)) by {
                            if t0.on_path(pi, ci) {
                                lemma_on_path_le(t0, pi, ci);
                            }
                        }
                    },
                    None => {
                        assert(ci == 0) by {
                            if ci != 0 {
                                assert(t0.parent_ok(ci));
                            }
                        }
                        assert forall|j: int| t0.on_path(0, j) implies j == 0 by {
                        }
                    },
                }
            }
            cur_r = -cur_r;
            cur_opt = next;
        }
        proof {
            lemma_on_path_root(*old(self), i as int);
            assert forall|j: int|
                0 <= j < self.stats@.len() implies (#[trigger] self.stats@[j]).visit_count
                <= self.stats@[0].visit_count by {
                if old(self).on_path(i as int, j) {
                }
            }
            let t0 = *old(self);
            assert forall|j: int| 1 <= j < self.nodes@.len() implies #[trigger] self.listed(
                j,
            ) by {
                assert(t0.listed(j));
                let pj = parent_of(t0.nodes@[j]);
                let k0 = choose|k0: int|
                    0 <= k0 < t0.children@[pj]@.len() && t0.children@[pj]@[k0] == j;
                assert(self.children@[pj]@[k0] == j);
            }
            let idxs = t0.children@[0]@;
            assert(self.children@[0]@ == idxs);
            if i == 0 {
                assert forall|m: int|
                    0 <= m < idxs.len() implies t0.stats@[#[trigger] idxs[m] as int].visit_count
                    == self.stats@[idxs[m] as int].visit_count by {
                    assert(0 < idxs[m] as int && (idxs[m] as int) < t0.nodes@.len());
                    if t0.on_path(0, idxs[m] as int) {
                        lemma_on_path_from_root(t0, idxs[m] as int);
                    }
                }
                lemma_visits_sum_equal(t0, *self, idxs);
            } else {
                let jstar = lemma_path_root_child(t0, i as int);
                let cstar: usize = jstar as usize;
                assert(t0.listed(jstar));
                let k0 = choose|k0: int|
                    0 <= k0 < t0.children@[parent_of(t0.nodes@[jstar])]@.len() && t0.children@[
                    parent_of(t0.nodes@[jstar])]@[k0] == jstar;
                assert(idxs[k0] == cstar);
                assert forall|m1: int, m2: int|
                    0 <= m1 < idxs.len() && 0 <= m2 < idxs.len() && #[trigger] idxs[m1] == cstar
                        && #[trigger] idxs[m2] == cstar implies m1 == m2 by {
                }
                assert forall|m: int|
                    0 <= m < idxs.len() && #[trigger] idxs[m] != cstar implies t0.stats@[
                idxs[m] as int].visit_count == self.stats@[idxs[m] as int].visit_count by {
                    let c = idxs[m] as int;
                    assert(0 < c && c < t0.nodes@.len());
                    assert(parent_of(t0.nodes@[c]) == 0);
                    if t0.on_path(i as int, c) {
                        lemma_root_child_unique(t0, i as int, c, jstar);
                    }
                }
                assert(t0.stats@[jstar].visit_count <= t0.stats@[0].visit_count);
                assert(self.stats@[cstar as int].visit_count == t0.stats@[
                cstar as int].visit_count + 1);
                lemma_visits_sum_bump(t0, *self, idxs, cstar);
            }
        }
    }
}

impl<State: GameState> Node<State> {
    /// Runs the full search against `tree`: `n_simulations` passes of
    /// select, expand, rollout and backpropagate, then returns the action
    /// leading to the most-visited immediate child of the root (the first
    /// such child on ties).
    ///
    /// Afterwards the root's visit count has grown by exactly
    /// `n_simulations`, the returned action is legal at the root's state,
    /// and no child list that was already populated has been touched.
    pub fn best_action(tree: &mut Tree<State>, n_simulations: u32) -> (action: State::Action)
        requires
            old(tree).wf(),
            old(tree).linked(),
            !old(tree).nodes@[0].state.is_terminal_spec(),
            n_simulations >= 1,
            old(tree).stats@[0].visit_count + n_simulations <= u32::MAX,
        ensures
            final(tree).wf(),
            final(tree).linked(),
            final(tree).root_children_visit_sum() == old(tree).root_children_visit_sum()
                + n_simulations,
            final(tree).stats@[0].visit_count == old(tree).stats@[0].visit_count + n_simulations,
            final(tree).nodes@[0] == old(tree).nodes@[0],
            old(tree).nodes@[0].state.is_legal(action),
            exists|kk: int|
                0 <= kk < final(tree).children@[0]@.len()
                    && final(tree).root_child(kk).parent_action == Some(action)
                    && (forall|j: int|
                    0 <= j < final(tree).children@[0]@.len() ==> final(tree).root_child_visits(j)
                        <= final(tree).root_child_visits(kk)) && (forall|j: int|
                    0 <= j < kk ==> final(tree).root_child_visits(j)
                        < final(tree).root_child_visits(kk)),
            forall|j: int|
                0 <= j < old(tree).nodes@.len() && old(tree).children@[j]@.len() > 0
                    ==> final(tree).children@[j]@ == old(tree).children@[j]@,
    {
        let mut s: u32 = 0;
        while s < n_simulations
            invariant
                tree.wf(),
                tree.linked(),
                tree.root_children_visit_sum() == old(tree).root_children_visit_sum() + s,
                old(tree).nodes@.len() >= 1,
                tree.nodes@.len() >= old(tree).nodes@.len(),
                s <= n_simulations,
                old(tree).stats@[0].visit_count + n_simulations <= u32::MAX,
                tree.stats@[0].visit_count == old(tree).stats@[0].visit_count + s,
                forall|j: int|
                    0 <= j < old(tree).nodes@.len() ==> tree.nodes@[j] == old(tree).nodes@[j],
                forall|j: int|
                    0 <= j < old(tree).nodes@.len() && old(tree).children@[j]@.len() > 0
                        ==> tree.children@[j]@ == old(tree).children@[j]@,
                !old(tree).nodes@[0].state.is_terminal_spec(),
                s >= 1 ==> tree.children@[0]@.len() > 0,
            decreases n_simulations - s,
        {
            let leaf = tree.select_node();
            proof {
                assert(tree.node_inv(leaf as int));
            }
            let result = rollout(&tree.nodes[leaf].state);
            tree.backpropagate(leaf, result);
            s = s + 1;
        }
        let n_children = tree.children[0].len();
        let mut best_pos: usize = 0;
        let mut best_visit: u64 = tree.stats[tree.children[0][0]].visit_count;
        let mut k: usize = 1;
        while k < n_children
            invariant
                tree.wf(),
                n_children == tree.children@[0]@.len(),
                0 < n_children,
                1 <= k <= n_children,
                best_pos < k,
                best_visit == tree.stats@[tree.children@[0]@[best_pos as int] as int].visit_count,
                forall|j: int|
                    0 <= j < k ==> tree.stats@[tree.children@[0]@[j] as int].visit_count
                        <= best_visit,
                forall|j: int|
                    0 <= j < best_pos ==> tree.stats@[tree.children@[0]@[j] as int].visit_count
                        < best_visit,
            decreases n_children - k,
        {
            let ck = tree.children[0][k];
            let v = tree.stats[ck].visit_count;
            if v > best_visit {
                best_pos = k;
                best_visit = v;
            }
            k = k + 1;
        }
        let chosen = tree.children[0][best_pos];
        proof {
            assert(tree.parent_ok(chosen as int));
        }
        let action = match tree.nodes[chosen].parent_action {
            Some(a) => a,
            None => vstd::pervasive::unreached(),
        };
        proof {
            let bp = best_pos as int;
            assert(tree.root_child(bp).parent_action == Some(action));
            assert forall|j: int|
                0 <= j < tree.children@[0]@.len() implies tree.root_child_visits(j)
                <= tree.root_child_visits(bp) by {
                assert(tree.stats@[tree.children@[0]@[j] as int].visit_count <= best_visit);
            }
            assert forall|j: int| 0 <= j < bp implies tree.root_child_visits(j)
                < tree.root_child_visits(bp) by {
                assert(tree.stats@[tree.children@[0]@[j] as int].visit_count < best_visit);
            }
        }
        action
    }
}

} // verus!
