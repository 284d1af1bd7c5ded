//! Monte Carlo tree search with UCT selection.
//!
//! The tree is an append-only arena: nodes refer to each other by index, a
//! node's parent index is always smaller than its own, and no node moves or
//! dies before the search ends.  Each iteration selects a leaf, expands one
//! child if it can, plays a uniformly random game from it, and propagates
//! the reward back up with a negamax flip per level.  Rewards are counted in
//! half-points: a win is 2, a draw 1, a loss 0.

use crate::moves::{null_spec, Move};
use crate::numerics::{isqrt, ln_fp, ln_fp_spec, sqrt_floor, FP_ONE, LN2_FP};
use crate::position::{Outcome, Position, Side};
use vstd::prelude::*;

verus! {

/// More search iterations than any wall clock allows; the loop also stops
/// here so that visit counters can never overflow.
pub const VISIT_CAP: u64 = 0x1_0000_0000;

/// Declares `std::time::Instant` so that a clock reading can be held and
/// handed to `elapsed_millis`; the value itself stays opaque.
#[verifier::external_type_specification]
#[verifier::external_body]
pub struct ExInstant(std::time::Instant);

/// Relies on `std::time::Instant::now`: an opaque reading of the monotonic
/// clock; nothing can be promised of a clock value.
#[verifier::external_body]
fn clock_now() -> std::time::Instant {
    std::time::Instant::now()
}

/// Relies on `std::time::Instant::elapsed`: the milliseconds since the
/// reading, truncated to 64 bits; nothing can be promised of a clock value.
#[verifier::external_body]
fn elapsed_millis(start: &std::time::Instant) -> u64 {
    start.elapsed().as_millis() as u64
}

/// Relies on `fastrand::usize`: a uniform index below `n`; which index
/// comes back is left open.
#[verifier::external_body]
fn random_below(n: usize) -> (r: usize)
    requires
        n >= 1,
    ensures
        r < n,
{
    fastrand::usize(..n)
}

/// One search-tree node.
pub struct Node {
    /// The index of the parent; `None` only at the root.
    pub parent: Option<usize>,
    /// The indices of the children, in creation order.
    pub children: Vec<usize>,
    /// How many backups have passed through this node.
    pub visits: u64,
    /// Accumulated reward in half-points, from this node's own perspective.
    pub total_value: u64,
    /// The game state this node stands for.
    pub position: Position,
    /// The move that led here from the parent; null at the root.
    pub from_action: Move,
}

/// The arena of nodes; index 0 is the root of the current search.
pub struct Tree {
    pub nodes: Vec<Node>,
}

/// The UCB1 score of a node in 16.16 fixed point: the empirical mean plus
/// `sqrt(2) * sqrt(2 ln N / v)` — that is, `2 * sqrt(ln N / v)` — saturated
/// just below the maximum, with the natural log coarsened to
/// `ln 2 * floor(log2 N)`.  An unvisited node scores the maximum itself.
pub open spec fn ucb1_spec(total: u64, visits: u64, parent_visits: u64) -> u64 {
    if visits == 0 {
        u64::MAX
    } else {
        let exploitation = (total as int * FP_ONE) / (2 * visits as int);
        let exploration = 2 * sqrt_floor(
            ((FP_ONE * ln_fp_spec(parent_visits)) / (visits as int)) as u64,
        );
        if exploitation + exploration > u64::MAX - 1 {
            (u64::MAX - 1) as u64
        } else {
            (exploitation + exploration) as u64
        }
    }
}

/// The sum of the visit counters of the listed nodes.
pub open spec fn sum_visits(nodes: Seq<Node>, cs: Seq<usize>) -> int
    decreases cs.len(),
{
    if cs.len() == 0 {
        0
    } else {
        nodes[cs[0] as int].visits + sum_visits(nodes, cs.drop_first())
    }
}

/// Two nodes agree on everything but the visit and value counters.
pub open spec fn same_shape(a: Node, b: Node) -> bool {
    a.parent == b.parent && a.children@ == b.children@ && a.position == b.position
        && a.from_action == b.from_action
}

/// The left node's empirical mean beats the right one's, compared by cross
/// multiplication so that a zero visit counter needs no division.
pub open spec fn better_mean(a: Node, b: Node) -> bool {
    a.total_value * b.visits > b.total_value * a.visits
}

/// The arena index of the node with the best empirical mean among the
/// children `cs[k..]`, seeded with the running best `best`; only a strictly
/// better mean replaces the running best, so the earliest child wins ties.
pub open spec fn best_mean_child(nodes: Seq<Node>, cs: Seq<usize>, k: int, best: usize) -> usize
    decreases cs.len() - k,
{
    if k < 0 || k >= cs.len() {
        best
    } else if better_mean(nodes[cs[k] as int], nodes[best as int]) {
        best_mean_child(nodes, cs, k + 1, cs[k])
    } else {
        best_mean_child(nodes, cs, k + 1, best)
    }
}

/// The arena index of the node with the best UCB1 score among the children
/// `cs[k..]` under a parent with `pv` visits, seeded with the running best;
/// only a strictly better score replaces it, so the earliest child wins
/// ties.
pub open spec fn best_ucb_child(
    nodes: Seq<Node>,
    cs: Seq<usize>,
    pv: u64,
    k: int,
    best: usize,
) -> usize
    decreases cs.len() - k,
{
    if k < 0 || k >= cs.len() {
        best
    } else if ucb1_spec(nodes[cs[k] as int].total_value, nodes[cs[k] as int].visits, pv)
        > ucb1_spec(nodes[best as int].total_value, nodes[best as int].visits, pv) {
        best_ucb_child(nodes, cs, pv, k + 1, cs[k])
    } else {
        best_ucb_child(nodes, cs, pv, k + 1, best)
    }
}

/// The reward of a finished position for its own side to move, in
/// half-points: 2 for a win, 1 for a draw, 0 for a loss.
pub open spec fn terminal_reward(p: Position) -> u64 {
    match p.winner_spec() {
        Some(Outcome::Draw) => 1,
        Some(Outcome::WhiteWin) => if p.turn == Side::White {
            2
        } else {
            0
        },
        Some(Outcome::BlackWin) => if p.turn == Side::Black {
            2
        } else {
            0
        },
        None => 0,
    }
}

/// The parent chain from a node up to the root, the node first.
pub open spec fn chain(nodes: Seq<Node>, i: int) -> Seq<int>
    decreases i,
{
    if !(0 <= i < nodes.len()) || nodes[i].parent is None {
        seq![i]
    } else if nodes[i].parent->0 < i {
        seq![i] + chain(nodes, nodes[i].parent->0 as int)
    } else {
        seq![i]
    }
}

/// Appending a child adds its visits to the sum.
proof fn lemma_sum_visits_push(nodes: Seq<Node>, cs: Seq<usize>, c: usize)
    ensures
        sum_visits(nodes, cs.push(c)) == sum_visits(nodes, cs) + nodes[c as int].visits,
    decreases cs.len(),
{
    assert(cs.push(c).len() == cs.len() + 1);
    assert(sum_visits(nodes, cs.push(c)) == nodes[cs.push(c)[0] as int].visits + sum_visits(
        nodes,
        cs.push(c).drop_first(),
    ));
    if cs.len() == 0 {
        assert(cs.push(c).drop_first() =~= Seq::<usize>::empty());
        assert(cs.push(c)[0] == c);
    } else {
        assert(cs.push(c)[0] == cs[0]);
        assert(cs.push(c).drop_first() =~= cs.drop_first().push(c));
        lemma_sum_visits_push(nodes, cs.drop_first(), c);
    }
}

/// The sum reads only the listed nodes' visit counters.
proof fn lemma_sum_visits_same(n1: Seq<Node>, n2: Seq<Node>, cs: Seq<usize>)
    requires
        forall|k: int|
            0 <= k < cs.len() ==> n1[#[trigger] cs[k] as int].visits == n2[cs[k] as int].visits,
    ensures
        sum_visits(n1, cs) == sum_visits(n2, cs),
    decreases cs.len(),
{
    if cs.len() > 0 {
        assert(forall|q: int| 0 <= q < cs.drop_first().len() ==> #[trigger] cs.drop_first()[q]
            == cs[q + 1]);
        lemma_sum_visits_same(n1, n2, cs.drop_first());
    }
}

/// Raising one listed node's counter by one raises the sum by one, when the
/// list holds it exactly once.
proof fn lemma_sum_visits_plus_one(n1: Seq<Node>, n2: Seq<Node>, cs: Seq<usize>, x: usize)
    requires
        forall|k1: int, k2: int| 0 <= k1 < k2 < cs.len() ==> cs[k1] != cs[k2],
        cs.contains(x),
        n2[x as int].visits == n1[x as int].visits + 1,
        forall|k: int|
            0 <= k < cs.len() && cs[k] != x ==> n2[#[trigger] cs[k] as int].visits == n1[cs[k] as int].visits,
    ensures
        sum_visits(n2, cs) == sum_visits(n1, cs) + 1,
    decreases cs.len(),
{
    assert(cs.len() > 0);
    assert(forall|q: int| 0 <= q < cs.drop_first().len() ==> #[trigger] cs.drop_first()[q] == cs[q
        + 1]);
    if cs[0] == x {
        assert(!cs.drop_first().contains(x)) by {
            if cs.drop_first().contains(x) {
                let q = choose|q: int| 0 <= q < cs.drop_first().len() && cs.drop_first()[q] == x;
                assert(cs[q + 1] == x && cs[0] == x);
            }
        }
        assert forall|k: int| 0 <= k < cs.drop_first().len() implies n2[
            #[trigger] cs.drop_first()[k] as int
        ].visits == n1[cs.drop_first()[k] as int].visits by {
            assert(cs.drop_first()[k] == cs[k + 1]);
            assert(cs.drop_first()[k] != x);
        }
        lemma_sum_visits_same(n1, n2, cs.drop_first());
    } else {
        let q = choose|q: int| 0 <= q < cs.len() && cs[q] == x;
        assert(q > 0);
        assert(cs.drop_first()[q - 1] == x);
        assert(cs.drop_first().contains(x));
        lemma_sum_visits_plus_one(n1, n2, cs.drop_first(), x);
    }
}

/// One listed counter never exceeds the sum of all of them.
proof fn lemma_sum_visits_member(nodes: Seq<Node>, cs: Seq<usize>, k: int)
    requires
        0 <= k < cs.len(),
    ensures
        sum_visits(nodes, cs) >= nodes[cs[k] as int].visits,
    decreases cs.len(),
{
    lemma_sum_visits_nonneg(nodes, cs.drop_first());
    assert(forall|q: int| 0 <= q < cs.drop_first().len() ==> #[trigger] cs.drop_first()[q] == cs[q
        + 1]);
    if k > 0 {
        lemma_sum_visits_member(nodes, cs.drop_first(), k - 1);
    }
}

/// The sum of visit counters is never negative.
proof fn lemma_sum_visits_nonneg(nodes: Seq<Node>, cs: Seq<usize>)
    ensures
        sum_visits(nodes, cs) >= 0,
    decreases cs.len(),
{
    if cs.len() > 0 {
        lemma_sum_visits_nonneg(nodes, cs.drop_first());
    }
}

impl Tree {
    /// Structural health of one node: its children sit further right in the
    /// arena, point back to it, carry the moves of its position in
    /// generation order, and exist only below non-terminal positions.
    pub open spec fn node_wf(self, i: int) -> bool {
        let n = self.nodes@[i];
        &&& n.position.wf()
        &&& n.total_value <= 2 * n.visits
        &&& n.visits <= VISIT_CAP
        &&& n.children@.len() <= n.position.moves_seq().len()
        &&& (n.children@.len() > 0 ==> !n.position.game_over_spec())
        &&& forall|k1: int, k2: int|
            0 <= k1 < k2 < n.children@.len() ==> n.children@[k1] < n.children@[k2]
        &&& forall|k: int|
            0 <= k < n.children@.len() ==> {
                let c = #[trigger] n.children@[k] as int;
                &&& i < c < self.nodes@.len()
                &&& self.nodes@[c].parent is Some
                &&& self.nodes@[c].parent->0 as int == i
                &&& self.nodes@[c].from_action == n.position.moves_seq()[k]
                &&& self.nodes@[c].position == n.position.move_applied(
                    n.position.moves_seq()[k],
                )
            }
    }

    /// Structural health of the whole arena: the root has no parent, every
    /// other node points to an earlier parent that lists it as a child.
    pub open spec fn struct_wf(self) -> bool {
        &&& self.nodes@.len() >= 1
        &&& self.nodes@[0].parent is None
        &&& forall|i: int|
            1 <= i < self.nodes@.len() ==> (#[trigger] self.nodes@[i].parent) is Some
                && self.nodes@[i].parent->0 < i && self.nodes@[self.nodes@[i].parent->0 as int].children@.contains(
                i as usize,
            )
        &&& forall|i: int| 0 <= i < self.nodes@.len() ==> self.node_wf(i)
    }

    /// The visit accounting of one node: a node on a non-terminal position
    /// has been visited once for itself plus once per visit of each child.
    pub open spec fn acct(self, i: int) -> bool {
        self.nodes@[i].position.game_over_spec() || self.nodes@[i].visits == 1 + sum_visits(
            self.nodes@,
            self.nodes@[i].children@,
        )
    }

    /// The whole tree is healthy and accounted.
    pub open spec fn tree_wf(self) -> bool {
        &&& self.struct_wf()
        &&& forall|i: int| 0 <= i < self.nodes@.len() ==> self.acct(i)
    }

    /// A fresh, empty arena.
    pub fn new() -> (r: Tree)
        ensures
            r.nodes@.len() == 0,
    {
        Tree { nodes: Vec::new() }
    }

    /// In an accounted tree no node out-visits the root.
    proof fn lemma_visits_le_root(self, i: int)
        requires
            self.tree_wf(),
            0 <= i < self.nodes@.len(),
        ensures
            self.nodes@[i].visits <= self.nodes@[0].visits,
        decreases i,
    {
        if i > 0 {
            assert(vstd::std_specs::vec::spec_vec_len(&self.nodes) == self.nodes@.len());
            let p = self.nodes@[i].parent->0 as int;
            assert(self.node_wf(p));
            assert(self.nodes@[p].children@.contains(i as usize));
            let k = choose|k: int|
                0 <= k < self.nodes@[p].children@.len() && self.nodes@[p].children@[k] == i as usize;
            assert(self.nodes@[p].children@[k] as int == i);
            assert(self.nodes@[p].children@.len() > 0);
            assert(!self.nodes@[p].position.game_over_spec());
            assert(self.acct(p));
            lemma_sum_visits_member(self.nodes@, self.nodes@[p].children@, k);
            self.lemma_visits_le_root(p);
        }
    }
}

} // verus!

verus! {

impl Tree {
    /// The UCB1 score of node `c` under a parent with `parent_visits`
    /// visits: the maximum exactly for an unvisited node.
    fn ucb1(&self, c: usize, parent_visits: u64) -> (r: u64)
        requires
            self.struct_wf(),
            c < self.nodes@.len(),
        ensures
            r == ucb1_spec(
                self.nodes@[c as int].total_value,
                self.nodes@[c as int].visits,
                parent_visits,
            ),
            (self.nodes@[c as int].visits == 0) <==> (r == u64::MAX),
    {
        proof {
            assert(self.node_wf(c as int));
        }
        let visits = self.nodes[c].visits;
        if visits == 0 {
            return u64::MAX;
        }
        let total = self.nodes[c].total_value;
        proof {
            assert(total as int * FP_ONE <= 2 * VISIT_CAP * FP_ONE) by (nonlinear_arith)
                requires
                    0 <= total <= 2 * VISIT_CAP,
            ;
        }
        let exploitation = (total * FP_ONE) / (2 * visits);
        let lnn = ln_fp(parent_visits);
        proof {
            assert(FP_ONE * lnn <= FP_ONE * (LN2_FP * 63)) by (nonlinear_arith)
                requires
                    0 <= lnn <= LN2_FP * 63,
            ;
        }
        let arg = (FP_ONE * lnn) / visits;
        let exploration = 2 * isqrt(arg);
        if exploitation > u64::MAX - 1 - exploration {
            u64::MAX - 1
        } else {
            exploitation + exploration
        }
    }

    /// The child of node `i` with the highest UCB1 score under `i`'s own
    /// visit count; ties go to the earlier child, because only a strictly
    /// better score displaces the running best.
    fn best_child(&self, i: usize) -> (c: usize)
        requires
            self.struct_wf(),
            i < self.nodes@.len(),
            self.nodes@[i as int].children@.len() >= 1,
        ensures
            i < c,
            (c as int) < self.nodes@.len(),
            self.nodes@[i as int].children@.contains(c),
            c == best_ucb_child(
                self.nodes@,
                self.nodes@[i as int].children@,
                self.nodes@[i as int].visits,
                1,
                self.nodes@[i as int].children@[0],
            ),
            forall|q: int|
                0 <= q < self.nodes@[i as int].children@.len() ==> ucb1_spec(
                    self.nodes@[#[trigger] self.nodes@[i as int].children@[q] as int].total_value,
                    self.nodes@[self.nodes@[i as int].children@[q] as int].visits,
                    self.nodes@[i as int].visits,
                ) <= ucb1_spec(
                    self.nodes@[c as int].total_value,
                    self.nodes@[c as int].visits,
                    self.nodes@[i as int].visits,
                ),
    {
        proof {
            assert(self.node_wf(i as int));
        }
        let ghost cs = self.nodes@[i as int].children@;
        let parent_visits = self.nodes[i].visits;
        let n = self.nodes[i].children.len();
        let mut best: usize = self.nodes[i].children[0];
        let mut best_score: u64 = self.ucb1(best, parent_visits);
        let mut k: usize = 1;
        while k < n
            invariant
                self.struct_wf(),
                i < self.nodes@.len(),
                cs == self.nodes@[i as int].children@,
                parent_visits == self.nodes@[i as int].visits,
                n == cs.len(),
                1 <= k <= n,
                i < best,
                (best as int) < self.nodes@.len(),
                cs.contains(best),
                best_score == ucb1_spec(
                    self.nodes@[best as int].total_value,
                    self.nodes@[best as int].visits,
                    parent_visits,
                ),
                best_ucb_child(self.nodes@, cs, parent_visits, k as int, best) == best_ucb_child(
                    self.nodes@,
                    cs,
                    parent_visits,
                    1,
                    cs[0],
                ),
                forall|q: int|
                    0 <= q < k ==> ucb1_spec(
                        self.nodes@[#[trigger] cs[q] as int].total_value,
                        self.nodes@[cs[q] as int].visits,
                        parent_visits,
                    ) <= best_score,
            decreases n - k,
        {
            proof {
                assert(self.node_wf(i as int));
                assert(cs.contains(cs[k as int]));
            }
            let ch = self.nodes[i].children[k];
            let score = self.ucb1(ch, parent_visits);
            if score > best_score {
                best = ch;
                best_score = score;
            }
            k = k + 1;
        }
        best
    }

    /// Plays a uniformly random game from node `i` to the end and scores it
    /// in half-points for the side to move at node `i`: win 2, draw 1,
    /// loss 0.  Which game is played depends on the random draws, but a
    /// node already holding a finished position plays nothing: its reward
    /// is fixed by the position alone.
    fn rollout(&self, i: usize) -> (delta: u64)
        requires
            self.struct_wf(),
            i < self.nodes@.len(),
        ensures
            delta <= 2,
            self.nodes@[i as int].position.game_over_spec() ==> delta == terminal_reward(
                self.nodes@[i as int].position,
            ),
    {
        proof {
            assert(self.node_wf(i as int));
        }
        let mut position = self.nodes[i].position;
        let s2m = position.turn;
        while !position.game_over()
            invariant
                position.wf(),
                s2m == self.nodes@[i as int].position.turn,
                self.nodes@[i as int].position.game_over_spec() ==> position == self.nodes@[
                    i as int
                ].position,
            decreases 100 - position.half_moves,
        {
            let moves = position.generate_moves();
            let pick = random_below(moves.len());
            let mv = moves[pick];
            proof {
                crate::moves::lemma_generated_moves_legal(position);
                assert(position.legal_move_spec(position.moves_seq()[pick as int]));
            }
            position.make_move(mv);
        }
        let value: u64 = match position.winner() {
            Some(Outcome::WhiteWin) => 2,
            Some(Outcome::BlackWin) => 0,
            _ => 1,
        };
        if s2m == Side::White {
            value
        } else {
            2 - value
        }
    }

    /// Adds the next unexpanded child of node `i` to the arena with zero
    /// visits and returns its index; only that node's accounting is open,
    /// one visit short.
    fn expand_at(&mut self, i: usize) -> (c: usize)
        requires
            old(self).tree_wf(),
            i < old(self).nodes@.len(),
            !old(self).nodes@[i as int].position.game_over_spec(),
            old(self).nodes@[i as int].children@.len() < old(self).nodes@[
                i as int
            ].position.moves_seq().len(),
        ensures
            final(self).struct_wf(),
            c as int == old(self).nodes@.len(),
            final(self).nodes@.len() == old(self).nodes@.len() + 1,
            forall|j: int| 0 <= j < final(self).nodes@.len() && j != c ==> final(self).acct(j),
            final(self).nodes@[c as int].parent == Some(i),
            final(self).nodes@[c as int].from_action == old(self).nodes@[
                i as int
            ].position.moves_seq()[old(self).nodes@[i as int].children@.len() as int],
            final(self).nodes@[c as int].position == old(self).nodes@[
                i as int
            ].position.move_applied(
                old(self).nodes@[i as int].position.moves_seq()[old(self).nodes@[
                    i as int
                ].children@.len() as int],
            ),
            final(self).nodes@[c as int].visits == 0,
            final(self).nodes@[c as int].total_value == 0,
            final(self).nodes@[c as int].children@.len() == 0,
            final(self).nodes@[i as int].children@ == old(self).nodes@[
                i as int
            ].children@.push(c),
            final(self).nodes@[i as int].parent == old(self).nodes@[i as int].parent,
            final(self).nodes@[i as int].position == old(self).nodes@[i as int].position,
            final(self).nodes@[i as int].from_action == old(self).nodes@[i as int].from_action,
            forall|j: int|
                0 <= j < old(self).nodes@.len() && j != i ==> final(self).nodes@[j] == old(
                    self,
                ).nodes@[j],
            final(self).nodes@[0].position == old(self).nodes@[0].position,
            forall|j: int|
                0 <= j < old(self).nodes@.len() ==> final(self).nodes@[j].visits == old(
                    self,
                ).nodes@[j].visits,
    {
        let k = self.nodes[i].children.len();
        let p = self.nodes[i].position;
        proof {
            assert(self.node_wf(i as int));
        }
        let mvs = p.generate_moves();
        let mv = mvs[k];
        let mut new_pos = p;
        proof {
            crate::moves::lemma_generated_moves_legal(p);
            assert(p.legal_move_spec(p.moves_seq()[k as int]));
        }
        new_pos.make_move(mv);
        let c = self.nodes.len();
        let child = Node {
            parent: Some(i),
            children: Vec::new(),
            visits: 0,
            total_value: 0,
            position: new_pos,
            from_action: mv,
        };
        let ghost before = self.nodes@;
        self.nodes.push(child);
        self.nodes[i].children.push(c);
        proof {
            let now = self.nodes@;
            assert(now[c as int].children@ =~= Seq::<usize>::empty());
            assert(now[i as int].children@ =~= before[i as int].children@.push(c));
            assert(forall|j: int| 0 <= j < before.len() && j != i ==> now[j] == before[j]);
            assert forall|j: int| 0 <= j < now.len() implies self.node_wf(j) by {
                if j < before.len() {
                    assert(old(self).node_wf(j));
                    if j == i {
                        assert(now[i as int].position == before[i as int].position);
                        assert(now[i as int].parent == before[i as int].parent);
                        assert(now[i as int].visits == before[i as int].visits);
                        assert(now[i as int].total_value == before[i as int].total_value);
                        assert forall|kk: int| 0 <= kk < now[i as int].children@.len() implies {
                            let cc = #[trigger] now[i as int].children@[kk] as int;
                            &&& i < cc < now.len()
                            &&& now[cc].parent is Some
                            &&& now[cc].parent->0 as int == i as int
                            &&& now[cc].from_action == now[i as int].position.moves_seq()[kk]
                            &&& now[cc].position == now[i as int].position.move_applied(
                                now[i as int].position.moves_seq()[kk],
                            )
                        } by {
                            if kk < before[i as int].children@.len() {
                                assert(now[i as int].children@[kk] == before[i as int].children@[kk]);
                                let cc = before[i as int].children@[kk] as int;
                                assert(i < cc < before.len());
                                assert(now[cc] == before[cc]);
                                assert(before[cc].parent->0 as int == i as int);
                                assert(before[cc].from_action == before[i as int].position.moves_seq()[kk]);
                            } else {
                                assert(kk == before[i as int].children@.len());
                                assert(now[i as int].children@[kk] == c);
                                assert(now[c as int].parent == Some(i));
                                assert(now[c as int].from_action == before[i as int].position.moves_seq()[kk]);
                                assert(now[c as int].position == before[i as int].position.move_applied(
                                    before[i as int].position.moves_seq()[kk],
                                ));
                            }
                        }
                    }
                } else {
                    assert(j == c as int);
                }
            }
            assert forall|j: int|
                1 <= j < now.len() implies (#[trigger] now[j].parent) is Some && now[j].parent->0
                < j && now[now[j].parent->0 as int].children@.contains(j as usize) by {
                if j < before.len() {
                    let pj = now[j].parent->0 as int;
                    assert(before[pj].children@.contains(j as usize));
                    let kk = choose|kk: int|
                        0 <= kk < before[pj].children@.len() && before[pj].children@[kk]
                            == j as usize;
                    if pj == i {
                        assert(now[pj].children@[kk] == j as usize);
                    } else {
                        assert(now[pj].children@ == before[pj].children@);
                    }
                } else {
                    assert(now[c as int].parent->0 == i);
                    assert(now[i as int].children@[before[i as int].children@.len() as int]
                        == c as usize);
                }
            }
            assert forall|j: int| 0 <= j < before.len() implies now[j].visits == before[j].visits
                by {
                if j != i {
                    assert(now[j] == before[j]);
                }
            }
            assert forall|j: int| 0 <= j < now.len() && j != c implies self.acct(j) by {
                if j < before.len() {
                    assert(old(self).acct(j));
                    assert(old(self).node_wf(j));
                    assert forall|k: int| 0 <= k < before[j].children@.len() implies now[
                        #[trigger] before[j].children@[k] as int
                    ].visits == before[before[j].children@[k] as int].visits by {}
                    if j == i {
                        lemma_sum_visits_push(now, before[i as int].children@, c as usize);
                        lemma_sum_visits_same(before, now, before[i as int].children@);
                    } else {
                        assert(now[j].children@ == before[j].children@);
                        lemma_sum_visits_same(before, now, before[j].children@);
                    }
                }
            }
        }
        c
    }

    /// Descends from the root, expanding the first expandable node on the
    /// way; the returned leaf is ready for a backup.
    fn tree_policy(&mut self) -> (leaf: usize)
        requires
            old(self).tree_wf(),
        ensures
            final(self).struct_wf(),
            leaf < final(self).nodes@.len(),
            forall|j: int| 0 <= j < final(self).nodes@.len() && j != leaf ==> final(self).acct(j),
            final(self).nodes@[leaf as int].position.game_over_spec() || final(self).nodes@[
                leaf as int
            ].visits == sum_visits(final(self).nodes@, final(self).nodes@[leaf as int].children@),
            final(self).nodes@[0].position == old(self).nodes@[0].position,
            final(self).nodes@[0].visits == old(self).nodes@[0].visits,
            forall|j: int|
                #![trigger final(self).nodes@[j]]
                0 <= j < final(self).nodes@.len() ==> final(self).nodes@[j].visits <= old(
                    self,
                ).nodes@[0].visits,
    {
        proof {
            assert forall|j: int| 0 <= j < self.nodes@.len() implies (#[trigger] self.nodes@[j]).visits
                <= self.nodes@[0].visits by {
                self.lemma_visits_le_root(j);
            }
        }
        let mut cur: usize = 0;
        loop
            invariant
                self.tree_wf(),
                cur < self.nodes@.len(),
                *self == *old(self),
            decreases self.nodes@.len() - cur,
        {
            let p = self.nodes[cur].position;
            proof {
                assert(self.node_wf(cur as int));
            }
            if p.game_over() {
                proof {
                    assert forall|j: int|
                        0 <= j < self.nodes@.len() implies (#[trigger] self.nodes@[j]).visits
                        <= old(self).nodes@[0].visits by {
                        self.lemma_visits_le_root(j);
                    }
                }
                return cur;
            }
            let n_children = self.nodes[cur].children.len();
            let mvs = p.generate_moves();
            if n_children < mvs.len() {
                proof {
                    assert forall|j: int|
                        0 <= j < self.nodes@.len() implies (#[trigger] self.nodes@[j]).visits
                        <= old(self).nodes@[0].visits by {
                        self.lemma_visits_le_root(j);
                    }
                }
                let c = self.expand_at(cur);
                proof {
                    assert(sum_visits(self.nodes@, self.nodes@[c as int].children@) == 0);
                }
                return c;
            }
            proof {
                assert(mvs@.len() >= 1);
            }
            cur = self.best_child(cur);
        }
    }

    /// Adds the reward to the selected leaf and walks the parent chain to
    /// the root, flipping the reward's perspective at each level — the node
    /// at chain position `q` gains `delta` when `q` is even and `2 - delta`
    /// when it is odd, every chain node gains one visit, nothing off the
    /// chain moves — and after the walk the whole tree is accounted again.
    #[verifier::rlimit(100)]
    pub fn backup(&mut self, leaf: usize, delta: u64)
        requires
            old(self).struct_wf(),
            leaf < old(self).nodes@.len(),
            delta <= 2,
            forall|j: int| 0 <= j < old(self).nodes@.len() && j != leaf ==> old(self).acct(j),
            old(self).nodes@[leaf as int].position.game_over_spec() || old(self).nodes@[
                leaf as int
            ].visits == sum_visits(old(self).nodes@, old(self).nodes@[leaf as int].children@),
            forall|j: int|
                0 <= j < old(self).nodes@.len() ==> old(self).nodes@[j].visits < VISIT_CAP,
        ensures
            final(self).tree_wf(),
            final(self).nodes@.len() == old(self).nodes@.len(),
            final(self).nodes@[0].position == old(self).nodes@[0].position,
            final(self).nodes@[0].visits == old(self).nodes@[0].visits + 1,
            ({
                let ch = chain(old(self).nodes@, leaf as int);
                &&& forall|q: int|
                    0 <= q < ch.len() ==> final(self).nodes@[#[trigger] ch[q]].visits == old(
                        self,
                    ).nodes@[ch[q]].visits + 1
                &&& forall|q: int|
                    0 <= q < ch.len() ==> final(self).nodes@[#[trigger] ch[q]].total_value == old(
                        self,
                    ).nodes@[ch[q]].total_value + (if q % 2 == 0 {
                        delta as int
                    } else {
                        2 - delta
                    })
                &&& forall|j: int|
                    0 <= j < old(self).nodes@.len() && !ch.contains(j) ==> final(self).nodes@[j]
                        == old(self).nodes@[j]
            }),
    {
        let ghost ch = chain(old(self).nodes@, leaf as int);
        proof {
            lemma_chain_props(old(self).nodes@, leaf as int);
        }
        let mut cur: usize = leaf;
        let mut d: u64 = delta;
        let ghost mut q: int = 0;
        loop
            invariant_except_break
                self.nodes@.len() == old(self).nodes@.len(),
                old(self).struct_wf(),
                leaf < old(self).nodes@.len(),
                delta <= 2,
                forall|j: int|
                    0 <= j < old(self).nodes@.len() ==> (#[trigger] old(self).nodes@[j]).visits
                        < VISIT_CAP,
                forall|j: int| 0 <= j < old(self).nodes@.len() && j != leaf ==> old(self).acct(j),
                old(self).nodes@[leaf as int].position.game_over_spec() || old(self).nodes@[
                    leaf as int
                ].visits == sum_visits(old(self).nodes@, old(self).nodes@[leaf as int].children@),
                ch == chain(old(self).nodes@, leaf as int),
                0 <= q < ch.len(),
                ch[q] == cur as int,
                cur < self.nodes@.len(),
                d == (if q % 2 == 0 {
                    delta as int
                } else {
                    2 - delta
                }),
                forall|z: int|
                    q <= z < ch.len() ==> self.nodes@[#[trigger] ch[z]] == old(self).nodes@[ch[z]],
                forall|z: int|
                    0 <= z < q ==> same_shape(
                        #[trigger] self.nodes@[ch[z]],
                        old(self).nodes@[ch[z]],
                    ) && self.nodes@[ch[z]].visits == old(self).nodes@[ch[z]].visits + 1
                        && self.nodes@[ch[z]].total_value == old(self).nodes@[ch[z]].total_value
                        + (if z % 2 == 0 {
                        delta as int
                    } else {
                        2 - delta
                    }),
                forall|j: int|
                    0 <= j < old(self).nodes@.len() && !ch.contains(j) ==> self.nodes@[j] == old(
                        self,
                    ).nodes@[j],
            ensures
                self.nodes@.len() == old(self).nodes@.len(),
                self.tree_wf(),
                ch == chain(old(self).nodes@, leaf as int),
                forall|z: int|
                    0 <= z < ch.len() ==> same_shape(
                        #[trigger] self.nodes@[ch[z]],
                        old(self).nodes@[ch[z]],
                    ) && self.nodes@[ch[z]].visits == old(self).nodes@[ch[z]].visits + 1
                        && self.nodes@[ch[z]].total_value == old(self).nodes@[ch[z]].total_value
                        + (if z % 2 == 0 {
                        delta as int
                    } else {
                        2 - delta
                    }),
                forall|j: int|
                    0 <= j < old(self).nodes@.len() && !ch.contains(j) ==> self.nodes@[j] == old(
                        self,
                    ).nodes@[j],
                ch[ch.len() - 1] == 0,
            decreases cur,
        {
            proof {
                lemma_chain_props(old(self).nodes@, leaf as int);
                assert(self.nodes@[cur as int] == old(self).nodes@[cur as int]);
                assert(old(self).node_wf(cur as int));
            }
            let ghost pre_loop = self.nodes@;
            let old_visits = self.nodes[cur].visits;
            let old_total = self.nodes[cur].total_value;
            self.nodes[cur].visits = old_visits + 1;
            self.nodes[cur].total_value = old_total + d;
            proof {
                assert(forall|j: int|
                    0 <= j < self.nodes@.len() && j != cur as int ==> self.nodes@[j] == pre_loop[j]);
                assert(same_shape(self.nodes@[cur as int], old(self).nodes@[cur as int]));
                assert forall|z: int| 0 <= z < ch.len() && z != q implies ch[z] != cur as int by {
                    if z < q {
                        assert(ch[q] < ch[z]);
                    } else {
                        assert(ch[z] < ch[q]);
                    }
                }
            }
            let parent = self.nodes[cur].parent;
            match parent {
                Some(pr) => {
                    proof {
                        assert(old(self).nodes@[cur as int].parent == Some(pr));
                        assert(cur as int != 0);
                        assert(ch[ch.len() - 1] == 0);
                        assert(q < ch.len() - 1) by {
                            if q == ch.len() - 1 {
                                assert(ch[q] == 0);
                            }
                        }
                        assert(old(self).nodes@[ch[q]].parent->0 as int == ch[q + 1]);
                        assert(ch[q + 1] == pr as int);
                        assert(pr < cur);
                        q = q + 1;
                    }
                    d = 2 - d;
                    cur = pr;
                },
                None => {
                    proof {
                        assert(old(self).nodes@[cur as int].parent is None);
                        assert(q == ch.len() - 1) by {
                            if q < ch.len() - 1 {
                                assert(old(self).nodes@[ch[q]].parent is Some);
                            }
                        }
                        assert(cur as int == ch[q]);
                        lemma_backup_restores(*old(self), *self, leaf as int, ch, delta as int);
                    }
                    break ;
                },
            }
        }
        proof {
            assert(self.nodes@[0].visits == old(self).nodes@[0].visits + 1) by {
                assert(ch[ch.len() - 1] == 0);
            }
            assert(self.nodes@[0].position == old(self).nodes@[0].position) by {
                assert(same_shape(self.nodes@[ch[ch.len() - 1]], old(self).nodes@[ch[ch.len() - 1]]));
            }
        }
    }

    /// The move of the root child with the best empirical mean
    /// `total_value / visits`, compared by cross multiplication and taking
    /// the earliest child on ties; the null move exactly when the root has
    /// no children yet.
    pub fn best_move(&self) -> (r: Move)
        requires
            self.struct_wf(),
        ensures
            r == null_spec() || self.nodes@[0].position.moves_seq().contains(r),
            self.nodes@[0].children@.len() == 0 <==> r == null_spec(),
            self.nodes@[0].children@.len() > 0 ==> r == self.nodes@[best_mean_child(
                self.nodes@,
                self.nodes@[0].children@,
                1,
                self.nodes@[0].children@[0],
            ) as int].from_action,
            self.nodes@[0].children@.len() > 0 ==> forall|q: int|
                0 <= q < self.nodes@[0].children@.len() ==> !better_mean(
                    self.nodes@[#[trigger] self.nodes@[0].children@[q] as int],
                    self.nodes@[best_mean_child(
                        self.nodes@,
                        self.nodes@[0].children@,
                        1,
                        self.nodes@[0].children@[0],
                    ) as int],
                ),
    {
        proof {
            assert(self.node_wf(0));
        }
        let ghost cs = self.nodes@[0].children@;
        let n = self.nodes[0].children.len();
        if n == 0 {
            return Move::null();
        }
        let mut best: usize = self.nodes[0].children[0];
        let mut k: usize = 1;
        while k < n
            invariant
                self.struct_wf(),
                cs == self.nodes@[0].children@,
                n == cs.len(),
                1 <= k <= n,
                (best as int) < self.nodes@.len(),
                cs.contains(best),
                best_mean_child(self.nodes@, cs, k as int, best) == best_mean_child(
                    self.nodes@,
                    cs,
                    1,
                    cs[0],
                ),
                forall|q: int|
                    0 <= q < k ==> !better_mean(
                        self.nodes@[#[trigger] cs[q] as int],
                        self.nodes@[best as int],
                    ),
            decreases n - k,
        {
            proof {
                assert(self.node_wf(0));
                assert(cs.contains(cs[k as int]));
            }
            let c = self.nodes[0].children[k];
            let t = self.nodes[c].total_value;
            let v = self.nodes[c].visits;
            let best_t = self.nodes[best].total_value;
            let best_v = self.nodes[best].visits;
            proof {
                assert((t as int) * (best_v as int) < 0x1_0000_0000_0000_0000int
                    * 0x1_0000_0000_0000_0000int && (best_t as int) * (v as int)
                    < 0x1_0000_0000_0000_0000int * 0x1_0000_0000_0000_0000int)
                    by (nonlinear_arith)
                    requires
                        0 <= t < 0x1_0000_0000_0000_0000int,
                        0 <= v < 0x1_0000_0000_0000_0000int,
                        0 <= best_t < 0x1_0000_0000_0000_0000int,
                        0 <= best_v < 0x1_0000_0000_0000_0000int,
                ;
            }
            // mean comparison t / v > best_t / best_v by cross
            // multiplication, safe in 128 bits
            if (t as u128) * (best_v as u128) > (best_t as u128) * (v as u128) {
                proof {
                    assert forall|q: int| 0 <= q < k implies !better_mean(
                        self.nodes@[#[trigger] cs[q] as int],
                        self.nodes@[c as int],
                    ) by {
                        lemma_mean_no_better(
                            self.nodes@[cs[q] as int],
                            self.nodes@[best as int],
                            self.nodes@[c as int],
                        );
                    }
                }
                best = c;
            }
            k = k + 1;
        }
        proof {
            assert(self.node_wf(0));
            let q = choose|q: int| 0 <= q < cs.len() && cs[q] == best;
            assert(self.nodes@[best as int].from_action == self.nodes@[
                0
            ].position.moves_seq()[q]);
            assert(self.nodes@[0].position.moves_seq().contains(
                self.nodes@[best as int].from_action,
            ));
            lemma_generated_not_null(self.nodes@[0].position);
        }
        self.nodes[best].from_action
    }

    /// Checks the accounting the search maintains: every node on a
    /// non-terminal position counts one visit for itself plus the visits of
    /// its children.
    pub fn confirm_logic(&self) -> (r: bool)
        requires
            self.struct_wf(),
        ensures
            r == (forall|i: int| 0 <= i < self.nodes@.len() ==> self.acct(i)),
    {
        let n = self.nodes.len();
        let mut i: usize = 0;
        while i < n
            invariant
                self.struct_wf(),
                n == self.nodes@.len(),
                i <= n,
                forall|j: int| 0 <= j < i ==> self.acct(j),
            decreases n - i,
        {
            if !self.nodes[i].position.game_over() {
                let m = self.nodes[i].children.len();
                let mut sum: u64 = 0;
                let mut k: usize = 0;
                proof {
                    assert(self.node_wf(i as int));
                    assert(self.nodes@[i as int].children@.skip(0) =~= self.nodes@[
                        i as int
                    ].children@);
                }
                proof {
                    crate::moves::lemma_moves_len_bound(self.nodes@[i as int].position);
                }
                while k < m
                    invariant
                        self.struct_wf(),
                        i < self.nodes@.len(),
                        m == self.nodes@[i as int].children@.len(),
                        m <= 4160,
                        k <= m,
                        sum + sum_visits(
                            self.nodes@,
                            self.nodes@[i as int].children@.skip(k as int),
                        ) == sum_visits(self.nodes@, self.nodes@[i as int].children@),
                        sum <= k * VISIT_CAP,
                    decreases m - k,
                {
                    proof {
                        assert(self.node_wf(i as int));
                        let cs = self.nodes@[i as int].children@;
                        assert(self.node_wf(cs[k as int] as int));
                        assert(cs.skip(k as int)[0] == cs[k as int]);
                        assert(cs.skip(k as int).drop_first() =~= cs.skip(k as int + 1));
                        lemma_sum_visits_nonneg(self.nodes@, cs.skip(k as int + 1));
                        assert(sum + VISIT_CAP <= (k + 1) * VISIT_CAP) by (nonlinear_arith)
                            requires
                                sum <= k * VISIT_CAP,
                                k >= 0,
                        ;
                        assert((k + 1) * VISIT_CAP <= 4161 * 0x1_0000_0000) by (nonlinear_arith)
                            requires
                                0 <= k + 1 <= 4161,
                                VISIT_CAP == 0x1_0000_0000,
                        ;
                    }
                    let c = self.nodes[i].children[k];
                    sum = sum + self.nodes[c].visits;
                    k = k + 1;
                }
                proof {
                    assert(self.nodes@[i as int].children@.skip(m as int) =~= Seq::<
                        usize,
                    >::empty());
                }
                let visits = self.nodes[i].visits;
                if !(visits >= 1 && visits - 1 == sum) {
                    proof {
                        assert(!self.acct(i as int));
                    }
                    return false;
                }
            }
            i = i + 1;
        }
        true
    }

    /// The search's public face: builds a tree below `pos` and returns the
    /// root move with the best empirical mean within the time budget, the
    /// lone legal move at once, or the null move if not one iteration fit
    /// in the budget.
    pub fn uct(&mut self, pos: Position, move_time: u64) -> (r: Move)
        requires
            pos.wf(),
            !pos.game_over_spec(),
        ensures
            r == null_spec() || pos.moves_seq().contains(r),
            pos.moves_seq().len() == 1 ==> r == pos.moves_seq()[0],
            final(self).tree_wf(),
            final(self).nodes@[0].position == pos,
            pos.moves_seq().len() != 1 ==> ((r == null_spec()) <==> final(self).nodes@[
                0
            ].children@.len() == 0),
            pos.moves_seq().len() != 1 && final(self).nodes@[0].children@.len() > 0 ==> r
                == final(self).nodes@[best_mean_child(
                final(self).nodes@,
                final(self).nodes@[0].children@,
                1,
                final(self).nodes@[0].children@[0],
            ) as int].from_action,
    {
        let moves = pos.generate_moves();
        self.nodes = Vec::new();
        let root = Node {
            parent: None,
            children: Vec::new(),
            visits: 1,
            total_value: 0,
            position: pos,
            from_action: Move::null(),
        };
        self.nodes.push(root);
        proof {
            assert(self.nodes@[0].children@ =~= Seq::<usize>::empty());
            assert(self.tree_wf());
        }
        if moves.len() == 1 {
            return moves[0];
        }
        let start = clock_now();
        loop
            invariant
                self.tree_wf(),
                self.nodes@[0].position == pos,
                self.nodes@[0].visits <= VISIT_CAP,
                pos.wf(),
                !pos.game_over_spec(),
            decreases VISIT_CAP - self.nodes@[0].visits,
        {
            if elapsed_millis(&start) >= move_time {
                break ;
            }
            if self.nodes[0].visits >= VISIT_CAP {
                break ;
            }
            proof {
                assert forall|j: int|
                    0 <= j < self.nodes@.len() implies (#[trigger] self.nodes@[j]).visits
                    < VISIT_CAP by {
                    self.lemma_visits_le_root(j);
                }
            }
            let leaf = self.tree_policy();
            let delta = self.rollout(leaf);
            let ghost mid = *self;
            self.backup(leaf, delta);
            proof {
                assert(self.node_wf(0));
                assert(self.nodes@[0].visits == mid.nodes@[0].visits + 1);
            }
        }
        self.best_move()
    }
}

/// A running best with the strictly better mean also beats everything the
/// old best already beat: cross-multiplied means are transitive.
proof fn lemma_mean_no_better(q: Node, b: Node, c: Node)
    requires
        !better_mean(q, b),
        better_mean(c, b),
    ensures
        !better_mean(q, c),
{
    let tq = q.total_value as int;
    let vq = q.visits as int;
    let tb = b.total_value as int;
    let vb = b.visits as int;
    let tc = c.total_value as int;
    let vc = c.visits as int;
    if vb == 0 {
        assert(tc * vb == 0) by (nonlinear_arith)
            requires
                vb == 0,
        ;
        assert(tb * vc >= 0) by (nonlinear_arith)
            requires
                tb >= 0,
                vc >= 0,
        ;
    } else if vq == 0 {
        assert(tb * vq == 0) by (nonlinear_arith)
            requires
                vq == 0,
        ;
        assert(tq == 0) by (nonlinear_arith)
            requires
                tq * vb <= 0,
                tq >= 0,
                vb > 0,
        ;
        assert(tq * vc <= tc * vq) by (nonlinear_arith)
            requires
                tq == 0,
                vq == 0,
                tc >= 0,
                vc >= 0,
        ;
    } else {
        assert(tq * vc <= tc * vq) by (nonlinear_arith)
            requires
                tq * vb <= tb * vq,
                tc * vb > tb * vc,
                vb > 0,
                vq > 0,
                tq >= 0 && tb >= 0 && tc >= 0 && vc >= 0,
        ;
    }
}

/// No generated move is the null sentinel: a legal move is the pass or
/// names a board square below 49, while the null move does neither.
proof fn lemma_generated_not_null(p: Position)
    requires
        p.wf(),
    ensures
        forall|k: int| 0 <= k < p.moves_seq().len() ==> #[trigger] p.moves_seq()[k] != null_spec(),
{
    if !p.game_over_spec() {
        crate::moves::lemma_generated_moves_legal(p);
        assert forall|k: int| 0 <= k < p.moves_seq().len() implies #[trigger] p.moves_seq()[k]
            != null_spec() by {
            assert(p.legal_move_spec(p.moves_seq()[k]));
            if p.moves_seq()[k] == null_spec() {
                assert(!crate::bitboard::bit(p.mover_spec(), 49)) by {
                    lemma_high_bit_clear(p.mover_spec());
                }
            }
        }
    } else {
        lemma_moves_seq_terminal_legal(p);
    }
}

/// A board word never holds square 49.
proof fn lemma_high_bit_clear(m: u64)
    by (bit_vector)
    requires
        m & !crate::bitboard::FULL == 0,
    ensures
        (m >> 49u64) & 1 != 1,
{
}

/// Even on a finished position the move sequence holds no null move: the
/// generation spec never writes the null sentinel.
proof fn lemma_moves_seq_terminal_legal(p: Position)
    requires
        p.wf(),
    ensures
        forall|k: int| 0 <= k < p.moves_seq().len() ==> #[trigger] p.moves_seq()[k] != null_spec(),
{
    assert forall|k: int| 0 <= k < p.moves_seq().len() implies #[trigger] p.moves_seq()[k]
        != null_spec() by {
        if !p.must_pass_spec() {
            let srcs = crate::bitboard::bit_indices(p.mover_spec());
            crate::bitboard::lemma_bit_indices_bits(p.mover_spec());
            assert forall|q: int| 0 <= q < srcs.len() implies crate::bitboard::bit(
                p.mover_spec(),
                #[trigger] srcs[q],
            ) by {
                assert(srcs.contains(srcs[q]));
            }
            assert(p.moves_seq() == crate::moves::growth_moves(
                crate::bitboard::singles_spec(p.mover_spec()) & p.empty_spec(),
            ) + crate::moves::jumps_of_srcs(srcs, p.empty_spec()));
            lemma_no_null_in_parts(
                p,
                crate::bitboard::singles_spec(p.mover_spec()) & p.empty_spec(),
                srcs,
                k,
            );
        }
    }
}

/// Growth and jump lists never hold the null move: growths repeat one
/// square, jumps start below square 49.
proof fn lemma_no_null_in_parts(p: Position, g: u64, srcs: Seq<u8>, k: int)
    requires
        p.wf(),
        0 <= k < (crate::moves::growth_moves(g) + crate::moves::jumps_of_srcs(
            srcs,
            p.empty_spec(),
        )).len(),
        forall|q: int| 0 <= q < srcs.len() ==> crate::bitboard::bit(p.mover_spec(), #[trigger] srcs[q]),
    ensures
        (crate::moves::growth_moves(g) + crate::moves::jumps_of_srcs(srcs, p.empty_spec()))[k]
            != null_spec(),
    decreases srcs.len(),
{
    let gs = crate::moves::growth_moves(g);
    let js = crate::moves::jumps_of_srcs(srcs, p.empty_spec());
    if k < gs.len() {
        assert(gs[k].from == gs[k].to);
    } else {
        lemma_jumps_no_null(p, srcs, k - gs.len());
    }
}

/// A jump's source square is an own stone, hence below 49, never 49.
proof fn lemma_jumps_no_null(p: Position, srcs: Seq<u8>, k: int)
    requires
        p.wf(),
        0 <= k < crate::moves::jumps_of_srcs(srcs, p.empty_spec()).len(),
        forall|q: int| 0 <= q < srcs.len() ==> crate::bitboard::bit(p.mover_spec(), #[trigger] srcs[q]),
    ensures
        crate::moves::jumps_of_srcs(srcs, p.empty_spec())[k] != null_spec(),
    decreases srcs.len(),
{
    let e = p.empty_spec();
    let head = crate::moves::jumps_of_src(srcs[0], e);
    if k < head.len() {
        assert(head[k].from == srcs[0]);
        assert(crate::bitboard::bit(p.mover_spec(), srcs[0]));
        lemma_high_bit_clear(p.mover_spec());
    } else {
        assert(forall|q: int| 0 <= q < srcs.drop_first().len() ==> #[trigger] srcs.drop_first()[q]
            == srcs[q + 1]);
        lemma_jumps_no_null(p, srcs.drop_first(), k - head.len());
    }
}

/// An unvisited node outscores every visited one: the UCB1 of a node with
/// zero visits is the maximum, and the UCB1 of any visited node is smaller,
/// whatever its value and whatever the parent's count.
pub proof fn lemma_unvisited_scores_highest(total: u64, visits: u64, parent_visits: u64)
    requires
        visits > 0,
    ensures
        ucb1_spec(total, visits, parent_visits) < ucb1_spec(total, 0, parent_visits),
        ucb1_spec(total, 0, parent_visits) == u64::MAX,
{
}

/// Shape of a parent chain in a healthy arena: indices strictly fall, each
/// step follows the parent pointer, and the walk ends at the root.
proof fn lemma_chain_props(nodes: Seq<Node>, i: int)
    requires
        0 <= i < nodes.len(),
        nodes.len() >= 1,
        nodes[0].parent is None,
        forall|j: int|
            1 <= j < nodes.len() ==> (#[trigger] nodes[j].parent) is Some && nodes[j].parent->0
                < j,
    ensures
        ({
            let ch = chain(nodes, i);
            &&& ch.len() >= 1
            &&& ch[0] == i
            &&& ch[ch.len() - 1] == 0
            &&& forall|q: int| 0 <= q < ch.len() ==> 0 <= #[trigger] ch[q] < nodes.len()
            &&& forall|q1: int, q2: int| 0 <= q1 < q2 < ch.len() ==> ch[q2] < ch[q1]
            &&& forall|q: int|
                0 <= q < ch.len() - 1 ==> (#[trigger] nodes[ch[q]].parent) is Some
                    && nodes[ch[q]].parent->0 as int == ch[q + 1]
            &&& nodes[ch[ch.len() - 1]].parent is None
        }),
    decreases i,
{
    let ch = chain(nodes, i);
    if i == 0 {
        assert(ch =~= seq![0int]);
    } else {
        let p = nodes[i].parent->0 as int;
        lemma_chain_props(nodes, p);
        let tail = chain(nodes, p);
        assert(ch =~= seq![i] + tail);
        assert(nodes[i].parent == Some(nodes[i].parent->0));
        assert forall|q1: int, q2: int| 0 <= q1 < q2 < ch.len() implies ch[q2] < ch[q1] by {
            if q1 == 0 {
                assert(ch[q2] == tail[q2 - 1]);
                if q2 - 1 > 0 {
                    assert(tail[q2 - 1] < tail[0]);
                }
            } else {
                assert(ch[q1] == tail[q1 - 1] && ch[q2] == tail[q2 - 1]);
            }
        }
    }
}

/// After a backup walk has raised every chain node's counters, the whole
/// tree is accounted and healthy again.
#[verifier::rlimit(100)]
#[verifier::spinoff_prover]
proof fn lemma_backup_restores(pre: Tree, post: Tree, leaf: int, ch: Seq<int>, delta: int)
    requires
        pre.struct_wf(),
        post.nodes@.len() == pre.nodes@.len(),
        0 <= leaf < pre.nodes@.len(),
        0 <= delta <= 2,
        ch == chain(pre.nodes@, leaf),
        forall|j: int| 0 <= j < pre.nodes@.len() && j != leaf ==> pre.acct(j),
        pre.nodes@[leaf].position.game_over_spec() || pre.nodes@[leaf].visits == sum_visits(
            pre.nodes@,
            pre.nodes@[leaf].children@,
        ),
        forall|j: int| 0 <= j < pre.nodes@.len() ==> (#[trigger] pre.nodes@[j]).visits < VISIT_CAP,
        forall|z: int|
            0 <= z < ch.len() ==> post.nodes@[#[trigger] ch[z]].visits == pre.nodes@[ch[z]].visits
                + 1,
        forall|z: int|
            0 <= z < ch.len() ==> post.nodes@[#[trigger] ch[z]].total_value == pre.nodes@[
                ch[z]
            ].total_value + (if z % 2 == 0 {
                delta
            } else {
                2 - delta
            }),
        forall|z: int|
            0 <= z < ch.len() ==> same_shape(#[trigger] post.nodes@[ch[z]], pre.nodes@[ch[z]]),
        forall|j: int|
            0 <= j < pre.nodes@.len() && !ch.contains(j) ==> post.nodes@[j] == pre.nodes@[j],
    ensures
        post.tree_wf(),
{
    lemma_chain_props(pre.nodes@, leaf);
    assert forall|j: int| 0 <= j < post.nodes@.len() implies same_shape(
        #[trigger] post.nodes@[j],
        pre.nodes@[j],
    ) && post.nodes@[j].visits <= pre.nodes@[j].visits + 1 && post.nodes@[j].visits
        >= pre.nodes@[j].visits && post.nodes@[j].total_value <= 2 * post.nodes@[j].visits by {
        assert(pre.node_wf(j));
        if ch.contains(j) {
            let z = choose|z: int| 0 <= z < ch.len() && ch[z] == j;
            assert(post.nodes@[ch[z]].visits == pre.nodes@[ch[z]].visits + 1);
        }
    }
    assert forall|j: int| 0 <= j < post.nodes@.len() implies post.node_wf(j) by {
        assert(pre.node_wf(j));
        assert forall|k: int| 0 <= k < post.nodes@[j].children@.len() implies {
            let c = #[trigger] post.nodes@[j].children@[k] as int;
            &&& j < c < post.nodes@.len()
            &&& post.nodes@[c].parent is Some
            &&& post.nodes@[c].parent->0 as int == j
            &&& post.nodes@[c].from_action == post.nodes@[j].position.moves_seq()[k]
            &&& post.nodes@[c].position == post.nodes@[j].position.move_applied(
                post.nodes@[j].position.moves_seq()[k],
            )
        } by {
            assert(post.nodes@[j].children@[k] == pre.nodes@[j].children@[k]);
        }
    }
    assert forall|j: int| 0 <= j < post.nodes@.len() implies post.acct(j) by {
        lemma_backup_acct_one(pre, post, leaf, ch, delta, j);
    }
}

/// One node's accounting after the backup walk.
#[verifier::rlimit(100)]
#[verifier::spinoff_prover]
proof fn lemma_backup_acct_one(pre: Tree, post: Tree, leaf: int, ch: Seq<int>, delta: int, j: int)
    requires
        pre.struct_wf(),
        post.nodes@.len() == pre.nodes@.len(),
        0 <= leaf < pre.nodes@.len(),
        0 <= j < pre.nodes@.len(),
        ch == chain(pre.nodes@, leaf),
        forall|jj: int| 0 <= jj < pre.nodes@.len() && jj != leaf ==> pre.acct(jj),
        pre.nodes@[leaf].position.game_over_spec() || pre.nodes@[leaf].visits == sum_visits(
            pre.nodes@,
            pre.nodes@[leaf].children@,
        ),
        forall|z: int|
            0 <= z < ch.len() ==> post.nodes@[#[trigger] ch[z]].visits == pre.nodes@[ch[z]].visits
                + 1,
        forall|z: int|
            0 <= z < ch.len() ==> same_shape(#[trigger] post.nodes@[ch[z]], pre.nodes@[ch[z]]),
        forall|jj: int|
            0 <= jj < pre.nodes@.len() && !ch.contains(jj) ==> post.nodes@[jj] == pre.nodes@[jj],
    ensures
        post.acct(j),
{
    lemma_chain_props(pre.nodes@, leaf);
    assert(vstd::std_specs::vec::spec_vec_len(&pre.nodes) == pre.nodes@.len());
    assert(pre.node_wf(j));
    let cs = pre.nodes@[j].children@;
    assert(post.nodes@[j].children@ == cs && post.nodes@[j].position == pre.nodes@[j].position)
        by {
        if ch.contains(j) {
            let z = choose|z: int| 0 <= z < ch.len() && ch[z] == j;
            assert(same_shape(post.nodes@[ch[z]], pre.nodes@[ch[z]]));
        }
    }
    if !ch.contains(j) {
        // none of j's children is on the chain: a chain node's parent is on
        // the chain, and a listed child's parent is j
        assert forall|k: int| 0 <= k < cs.len() implies post.nodes@[
            #[trigger] cs[k] as int
        ].visits == pre.nodes@[cs[k] as int].visits by {
            let c = cs[k] as int;
            if ch.contains(c) {
                let z = choose|z: int| 0 <= z < ch.len() && ch[z] == c;
                assert(pre.nodes@[c].parent->0 as int == j);
                assert(j < c);
                assert(c != 0);
                assert(z < ch.len() - 1);
                assert(pre.nodes@[ch[z]].parent->0 as int == ch[z + 1]);
                assert(ch[z + 1] == j);
                assert(ch.contains(j));
            }
        }
        lemma_sum_visits_same(pre.nodes@, post.nodes@, cs);
        assert(pre.acct(j));
    } else {
        let z = choose|z: int| 0 <= z < ch.len() && ch[z] == j;
        assert(post.nodes@[j].visits == pre.nodes@[j].visits + 1);
        if z == 0 {
            // the leaf: its children all sit to its right, off the chain
            assert(j == leaf);
            assert forall|k: int| 0 <= k < cs.len() implies post.nodes@[
                #[trigger] cs[k] as int
            ].visits == pre.nodes@[cs[k] as int].visits by {
                let c = cs[k] as int;
                assert(c > j);
                if ch.contains(c) {
                    let w = choose|w: int| 0 <= w < ch.len() && ch[w] == c;
                    assert(w > 0 ==> ch[w] < ch[0]);
                    assert(w == 0 ==> ch[w] == leaf);
                }
            }
            lemma_sum_visits_same(pre.nodes@, post.nodes@, cs);
        } else {
            // an inner chain node: exactly its chain child was raised
            let child = ch[z - 1];
            assert(ch[z] < ch[z - 1]);
            assert(child > 0);
            assert(pre.nodes@[ch[z - 1]].parent->0 as int == ch[z]);
            assert(pre.nodes@[child].parent->0 as int == j);
            assert(pre.nodes@[pre.nodes@[child].parent->0 as int].children@.contains(
                child as usize,
            ));
            assert(pre.nodes@[j].children@.contains(child as usize));
            let kc = choose|kc: int| 0 <= kc < cs.len() && cs[kc] == child as usize;
            assert(cs[kc] as int == child);
            assert(post.nodes@[child].visits == pre.nodes@[child].visits + 1);
            assert forall|k: int|
                0 <= k < cs.len() && cs[k] != child as usize implies post.nodes@[
                #[trigger] cs[k] as int
            ].visits == pre.nodes@[cs[k] as int].visits by {
                let c = cs[k] as int;
                if ch.contains(c) {
                    let w = choose|w: int| 0 <= w < ch.len() && ch[w] == c;
                    assert(c != 0);
                    assert(w < ch.len() - 1);
                    assert(pre.nodes@[ch[w]].parent->0 as int == ch[w + 1]);
                    assert(pre.nodes@[c].parent->0 as int == j);
                    assert(ch[w + 1] == j);
                    assert(w + 1 == z) by {
                        if w + 1 < z {
                            assert(ch[z] < ch[w + 1]);
                        }
                        if z < w + 1 {
                            assert(ch[w + 1] < ch[z]);
                        }
                    }
                }
            }
            assert forall|k1: int, k2: int| 0 <= k1 < k2 < cs.len() implies cs[k1] != cs[k2] by {
                assert(cs[k1] < cs[k2]);
            }
            lemma_sum_visits_plus_one(pre.nodes@, post.nodes@, cs, child as usize);
            assert(!pre.nodes@[j].position.game_over_spec()) by {
                assert(cs.contains(child as usize));
            }
            assert(pre.acct(j));
        }
    }
}

} // verus!
