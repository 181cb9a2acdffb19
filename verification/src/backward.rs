//! The backward engine: reverse-mode differentiation over the graph.
//!
//! A backward run resets the gradients below the root, orders the reachable
//! nodes root-first, seeds the root's gradient with the encoding of one, and
//! then walks the order, adding one contribution into each input of each
//! node. The engine fixes which payloads feed every contribution and where
//! each result is stored; the arithmetic itself is floating point, which the
//! verifier excludes, so the driver computes each contribution from the
//! payloads the engine hands it.

use vstd::prelude::*;

verus! {

use crate::graph::Graph;
use crate::graph::Op;
use crate::graph::ONE_BITS;
use crate::graph::ZERO_BITS;
use crate::graph::is_binary;
use crate::graph::is_unary;
use crate::graph::lemma_kid_reachable;
use crate::graph::lemma_reaches_bounds;
use crate::graph::lemma_reaches_congruence_one;
use crate::graph::lemma_reaches_trans;
use crate::graph::lemma_same_structure_sym;
use crate::graph::lemma_same_structure_trans;
use crate::graph::lemma_structure_after_node_edit;
use crate::sort::dependency_order;
use crate::sort::lemma_reversed_topo;
use crate::sort::topo_order;

/// How many of a node's inputs receive a contribution under the backward
/// rule for `op`: two for the binary operators, one for the unary ones, and
/// none for a leaf or an operator without a rule.
pub open spec fn spec_rule_inputs(op: Op) -> int {
    if is_binary(op) {
        2
    } else if is_unary(op) {
        1
    } else {
        0
    }
}

/// Executable form of [`spec_rule_inputs`].
pub fn rule_inputs(op: Op) -> (r: usize)
    ensures
        r == spec_rule_inputs(op),
{
    match op {
        Op::Add => 2,
        Op::Sub => 2,
        Op::Mul => 2,
        Op::Div => 2,
        Op::Neg => 1,
        Op::Tanh => 1,
        Op::Exp => 1,
        Op::Pow => 1,
        Op::Leaf => 0,
        Op::Relu => 0,
    }
}

impl Graph {
    /// Node `i` has as many inputs as its operator's backward rule reads.
    /// A node built by the operator constructors always satisfies this; only
    /// a node assembled from raw parts can violate it.
    pub open spec fn rule_arity_ok(&self, i: int) -> bool {
        &&& is_binary(self.op_of(i)) ==> self.kids(i).len() == 2
        &&& is_unary(self.op_of(i)) ==> self.kids(i).len() == 1
    }

    /// Every node reachable from `root` satisfies [`Self::rule_arity_ok`].
    pub open spec fn arity_ok_from(&self, root: int) -> bool {
        forall|j: int|
            0 <= j < self.n() && self.reaches(root, j) ==> #[trigger] self.rule_arity_ok(j)
    }

    /// Check that every node in the graph has as many inputs as its
    /// operator's backward rule reads. A caller that only ever uses the
    /// operator constructors can rely on this holding; one that assembles
    /// nodes from raw parts can test it before starting a backward run.
    pub fn rules_arity_consistent(&self) -> (r: bool)
        ensures
            r == forall|j: int| 0 <= j < self.n() ==> #[trigger] self.rule_arity_ok(j),
    {
        let total = self.node_count();
        let mut j: usize = 0;
        let mut ok = true;
        while j < total
            invariant
                total == self.n(),
                j <= total,
                ok == forall|m: int| 0 <= m < j ==> #[trigger] self.rule_arity_ok(m),
            decreases total - j,
        {
            let op = self.op(j);
            let num = self.num_children(j);
            let this_ok = match op {
                Op::Add => num == 2,
                Op::Sub => num == 2,
                Op::Mul => num == 2,
                Op::Div => num == 2,
                Op::Neg => num == 1,
                Op::Tanh => num == 1,
                Op::Exp => num == 1,
                Op::Pow => num == 1,
                Op::Leaf => true,
                Op::Relu => true,
            };
            proof {
                assert(this_ok == self.rule_arity_ok(j as int));
            }
            ok = ok && this_ok;
            j += 1;
        }
        ok
    }

    /// Node `j` lies strictly below node `i`: it is reachable from one of
    /// `i`'s inputs. In a well-formed graph a node is never its own
    /// descendant.
    pub open spec fn descendant(&self, i: int, j: int) -> bool {
        exists|k: int|
            0 <= k < self.kids(i).len() && self.reaches((#[trigger] self.kids(i)[k]) as int, j)
    }
}

/// Like reachability, descent depends only on the edges.
proof fn lemma_descendant_congruence_one(a: Graph, b: Graph, i: int, j: int)
    requires
        a.n() == b.n(),
        forall|m: int| 0 <= m < a.n() ==> (#[trigger] a.kids(m)) == b.kids(m),
        0 <= i < a.n(),
        a.descendant(i, j),
    ensures
        b.descendant(i, j),
{
    let k = choose|k: int|
        0 <= k < a.kids(i).len() && a.reaches((#[trigger] a.kids(i)[k]) as int, j);
    lemma_reaches_congruence_one(a, b, a.kids(i)[k] as int, j);
    assert(0 <= k < b.kids(i).len() && b.reaches((b.kids(i)[k]) as int, j));
}

/// A dependency ordering depends only on the structure, so it carries over
/// between graphs whose gradients or marks differ.
proof fn lemma_topo_order_congruence(a: Graph, b: Graph, root: int, order: Seq<usize>)
    requires
        a.same_structure(b),
        topo_order(a, root, order),
    ensures
        topo_order(b, root, order),
{
    assert forall|p: int| 0 <= p < order.len() implies b.reaches(
        root,
        (#[trigger] order[p]) as int,
    ) by {
        lemma_reaches_congruence_one(a, b, root, order[p] as int);
    }
    assert forall|j: int|
        #![trigger b.reaches(root, j)]
        0 <= j < b.n() && b.reaches(root, j) implies order.contains(j as usize) by {
        lemma_reaches_congruence_one(b, a, root, j);
    }
    assert forall|p: int, q: int|
        #![trigger b.kids(order[p] as int).contains(order[q])]
        0 <= p < order.len() && 0 <= q < order.len() && b.kids(order[p] as int).contains(
            order[q],
        ) implies p < q by {
        assert(a.kids(order[p] as int) == b.kids(order[p] as int));
    }
}

/// Some input of `i` among the first `k` reaches `j`.
pub open spec fn kid_reaches_upto(g: Graph, i: int, k: int, j: int) -> bool {
    exists|kk: int| 0 <= kk < k && g.reaches((#[trigger] g.kids(i)[kk]) as int, j)
}

/// Descent is exactly being reached by some input.
proof fn lemma_upto_full_is_descendant(g: Graph, i: int, j: int)
    ensures
        kid_reaches_upto(g, i, g.kids(i).len() as int, j) == g.descendant(i, j),
{
    if kid_reaches_upto(g, i, g.kids(i).len() as int, j) {
        let kk = choose|kk: int|
            0 <= kk < g.kids(i).len() && g.reaches((#[trigger] g.kids(i)[kk]) as int, j);
        assert(g.descendant(i, j));
    }
    if g.descendant(i, j) {
        let kk = choose|kk: int|
            0 <= kk < g.kids(i).len() && g.reaches((#[trigger] g.kids(i)[kk]) as int, j);
        assert(kid_reaches_upto(g, i, g.kids(i).len() as int, j));
    }
}

impl Graph {
    /// The reset pass: zero the gradient and clear the traversal mark of
    /// every node strictly below `i`. Node `i` itself, and every node not
    /// below it, is left untouched.
    fn reset_descendants(&mut self, i: usize)
        requires
            old(self).wf(),
            i < old(self).n(),
        ensures
            final(self).wf(),
            old(self).same_structure(*final(self)),
            forall|j: int|
                #![trigger final(self).vis(j)]
                0 <= j < old(self).n() && old(self).descendant(i as int, j) ==> !final(self).vis(
                    j,
                ),
            forall|j: int|
                #![trigger final(self).grad(j)]
                0 <= j < old(self).n() && old(self).descendant(i as int, j) ==> final(self).grad(
                    j,
                ) == ZERO_BITS,
            forall|j: int|
                0 <= j < old(self).n() && !old(self).descendant(i as int, j) ==> (
                #[trigger] final(self).node_at(j)) == old(self).node_at(j),
        decreases i as int,
    {
        let num = self.num_children(i);
        let mut k: usize = 0;
        let ghost g0 = *self;
        while k < num
            invariant
                g0.wf(),
                self.wf(),
                i < g0.n(),
                num == g0.kids(i as int).len(),
                k <= num,
                g0.same_structure(*self),
                forall|j: int|
                    #![trigger self.vis(j)]
                    0 <= j < g0.n() && kid_reaches_upto(g0, i as int, k as int, j) ==> !self.vis(
                        j,
                    ),
                forall|j: int|
                    #![trigger self.grad(j)]
                    0 <= j < g0.n() && kid_reaches_upto(g0, i as int, k as int, j) ==> self.grad(
                        j,
                    ) == ZERO_BITS,
                forall|j: int|
                    0 <= j < g0.n() && !kid_reaches_upto(g0, i as int, k as int, j) ==> (
                    #[trigger] self.node_at(j)) == g0.node_at(j),
            decreases num - k,
        {
            proof {
                assert(self.kids(i as int) == g0.kids(i as int));
            }
            let c = self.child(i, k);
            let ghost mid0 = *self;
            self.reset_node(c);
            let ghost mid1 = *self;
            proof {
                lemma_structure_after_node_edit(mid0, mid1, c as int);
            }
            self.reset_descendants(c);
            proof {
                lemma_same_structure_trans(g0, mid0, mid1);
                lemma_same_structure_trans(g0, mid1, *self);
                // a node is never its own descendant
                assert(!mid1.descendant(c as int, c as int)) by {
                    if mid1.descendant(c as int, c as int) {
                        let kk = choose|kk: int|
                            0 <= kk < mid1.kids(c as int).len() && mid1.reaches(
                                (#[trigger] mid1.kids(c as int)[kk]) as int,
                                c as int,
                            );
                        lemma_reaches_bounds(mid1, mid1.kids(c as int)[kk] as int, c as int);
                    }
                }
                assert forall|j: int|
                    #![trigger self.vis(j)]
                    0 <= j < g0.n() && kid_reaches_upto(g0, i as int, (k + 1) as int, j)
                    implies !self.vis(j) by {
                    let kk = choose|kk: int|
                        0 <= kk < k + 1 && g0.reaches((#[trigger] g0.kids(i as int)[kk]) as int, j);
                    if kk < k {
                        assert(kid_reaches_upto(g0, i as int, k as int, j));
                        assert(!mid0.vis(j));
                        assert(mid0.grad(j) == ZERO_BITS);
                        if j == c {
                            assert(!mid1.vis(j));
                            assert(mid1.grad(j) == ZERO_BITS);
                            assert(self.node_at(j) == mid1.node_at(j) || (!self.vis(j)
                                && self.grad(j) == ZERO_BITS));
                        } else {
                            assert(mid1.node_at(j) == mid0.node_at(j));
                            if mid1.descendant(c as int, j) {
                                assert(!self.vis(j));
                                assert(self.grad(j) == ZERO_BITS);
                            } else {
                                assert(self.node_at(j) == mid1.node_at(j));
                            }
                        }
                    } else {
                        assert(g0.reaches(c as int, j));
                        if j == c {
                            assert(!mid1.vis(j));
                            assert(mid1.grad(j) == ZERO_BITS);
                            assert(self.node_at(j) == mid1.node_at(j));
                        } else {
                            assert(g0.descendant(c as int, j));
                            lemma_descendant_congruence_one(g0, mid1, c as int, j);
                            assert(!self.vis(j));
                            assert(self.grad(j) == ZERO_BITS);
                        }
                    }
                    assert(!self.vis(j));
                    assert(self.grad(j) == ZERO_BITS);
                }
                assert forall|j: int|
                    #![trigger self.grad(j)]
                    0 <= j < g0.n() && kid_reaches_upto(g0, i as int, (k + 1) as int, j)
                    implies self.grad(j) == ZERO_BITS by {
                    let kk = choose|kk: int|
                        0 <= kk < k + 1 && g0.reaches((#[trigger] g0.kids(i as int)[kk]) as int, j);
                    if kk < k {
                        assert(kid_reaches_upto(g0, i as int, k as int, j));
                        assert(!mid0.vis(j));
                        assert(mid0.grad(j) == ZERO_BITS);
                        if j == c {
                            assert(!mid1.vis(j));
                            assert(mid1.grad(j) == ZERO_BITS);
                            assert(self.node_at(j) == mid1.node_at(j) || (!self.vis(j)
                                && self.grad(j) == ZERO_BITS));
                        } else {
                            assert(mid1.node_at(j) == mid0.node_at(j));
                            if mid1.descendant(c as int, j) {
                                assert(!self.vis(j));
                                assert(self.grad(j) == ZERO_BITS);
                            } else {
                                assert(self.node_at(j) == mid1.node_at(j));
                            }
                        }
                    } else {
                        assert(g0.reaches(c as int, j));
                        if j == c {
                            assert(!mid1.vis(j));
                            assert(mid1.grad(j) == ZERO_BITS);
                            assert(self.node_at(j) == mid1.node_at(j));
                        } else {
                            assert(g0.descendant(c as int, j));
                            lemma_descendant_congruence_one(g0, mid1, c as int, j);
                            assert(!self.vis(j));
                            assert(self.grad(j) == ZERO_BITS);
                        }
                    }
                    assert(!self.vis(j));
                    assert(self.grad(j) == ZERO_BITS);
                }
                assert forall|j: int|
                    0 <= j < g0.n() && !kid_reaches_upto(g0, i as int, (k + 1) as int, j)
                    implies (#[trigger] self.node_at(j)) == g0.node_at(j) by {
                    assert(!kid_reaches_upto(g0, i as int, k as int, j)) by {
                        if kid_reaches_upto(g0, i as int, k as int, j) {
                            let kk = choose|kk: int|
                                0 <= kk < k && g0.reaches(
                                    (#[trigger] g0.kids(i as int)[kk]) as int,
                                    j,
                                );
                            assert(kid_reaches_upto(g0, i as int, (k + 1) as int, j));
                        }
                    }
                    assert(mid0.node_at(j) == g0.node_at(j));
                    assert(j != c) by {
                        if j == c {
                            assert(g0.reaches(c as int, j));
                            assert(kid_reaches_upto(g0, i as int, (k + 1) as int, j));
                        }
                    }
                    assert(mid1.node_at(j) == mid0.node_at(j));
                    assert(!mid1.descendant(c as int, j)) by {
                        if mid1.descendant(c as int, j) {
                            lemma_descendant_congruence_one(mid1, g0, c as int, j);
                            let kk = choose|kk: int|
                                0 <= kk < g0.kids(c as int).len() && g0.reaches(
                                    (#[trigger] g0.kids(c as int)[kk]) as int,
                                    j,
                                );
                            lemma_kid_reachable(g0, c as int, kk);
                            lemma_reaches_trans(
                                g0,
                                c as int,
                                g0.kids(c as int)[kk] as int,
                                j,
                            );
                            assert(kid_reaches_upto(g0, i as int, (k + 1) as int, j));
                        }
                    }
                    assert(self.node_at(j) == mid1.node_at(j));
                }
            }
            k += 1;
        }
        proof {
            assert forall|j: int|
                #![trigger self.vis(j)]
                0 <= j < g0.n() && g0.descendant(i as int, j) implies !self.vis(j) by {
                lemma_upto_full_is_descendant(g0, i as int, j);
            }
            assert forall|j: int|
                #![trigger self.grad(j)]
                0 <= j < g0.n() && g0.descendant(i as int, j) implies self.grad(j)
                    == ZERO_BITS by {
                lemma_upto_full_is_descendant(g0, i as int, j);
            }
            assert forall|j: int|
                0 <= j < g0.n() && !g0.descendant(i as int, j) implies (
                #[trigger] self.node_at(j)) == g0.node_at(j) by {
                lemma_upto_full_is_descendant(g0, i as int, j);
            }
        }
    }
}


/// One pending contribution of a backward run: the engine tells the driver
/// which rule to apply and hands it every payload the rule's formula reads;
/// the driver answers with the target's new gradient payload.
#[derive(Clone, Copy, Debug, PartialEq, Eq, Structural)]
pub struct Step {
    /// The node whose backward rule is being applied; its own gradient is
    /// fully accumulated by the time this step is issued.
    pub node: usize,
    /// The input that receives the contribution.
    pub target: usize,
    /// Which input slot of `node` the contribution feeds: 0 for the left or
    /// only input, 1 for the right one.
    pub side: usize,
    /// The operator whose rule applies.
    pub op: Op,
    /// The accumulated gradient payload of `node`.
    pub out_gradient: u64,
    /// The forward payload of `node`.
    pub out_value: u64,
    /// The forward payload of the left (or only) input.
    pub lhs_value: u64,
    /// The forward payload of the right input; for a single input, that
    /// input's payload again.
    pub rhs_value: u64,
    /// The current gradient payload of `target`, which the contribution is
    /// added onto.
    pub target_gradient: u64,
}

/// A backward run in progress: the root-first order of the reachable nodes
/// and a cursor over the contributions that remain. The cursor only ever
/// rests on a node whose operator has a backward rule.
pub struct BackwardPass {
    order: Vec<usize>,
    node_pos: usize,
    side: usize,
    root: Ghost<int>,
}

impl BackwardPass {
    /// The root-first dependency order the run walks.
    pub closed spec fn order_seq(&self) -> Seq<usize> {
        self.order@
    }

    /// The position of the node currently being processed.
    pub closed spec fn pos(&self) -> int {
        self.node_pos as int
    }

    /// Which input slot of the current node receives the next contribution.
    pub closed spec fn side_idx(&self) -> int {
        self.side as int
    }

    /// The root the run was started from.
    pub closed spec fn root_id(&self) -> int {
        self.root@
    }

    /// Every contribution has been applied.
    pub open spec fn done(&self) -> bool {
        self.pos() == self.order_seq().len()
    }

    /// The pass agrees with the graph: the order is a root-first dependency
    /// order of the reachable nodes, each of them has as many inputs as its
    /// rule reads, and the cursor rests inside a node with a rule.
    pub open spec fn valid(&self, g: Graph) -> bool {
        &&& g.wf()
        &&& 0 <= self.root_id() < g.n()
        &&& topo_order(g, self.root_id(), self.order_seq())
        &&& forall|p: int|
            0 <= p < self.order_seq().len() ==> g.rule_arity_ok(
                (#[trigger] self.order_seq()[p]) as int,
            )
        &&& 0 <= self.pos() <= self.order_seq().len()
        &&& !self.done() ==> 0 <= self.side_idx() < spec_rule_inputs(
            g.op_of(self.order_seq()[self.pos()] as int),
        )
        &&& self.done() ==> self.side_idx() == 0
    }

    /// How many cursor advances remain, at most.
    pub open spec fn measure(&self) -> int {
        2 * (self.order_seq().len() - self.pos()) - self.side_idx()
    }

    /// The contribution the cursor stands on.
    pub open spec fn spec_step(&self, g: Graph) -> Step {
        let node = self.order_seq()[self.pos()];
        let kids = g.kids(node as int);
        let target = kids[self.side_idx()];
        Step {
            node,
            target,
            side: self.side_idx() as usize,
            op: g.op_of(node as int),
            out_gradient: g.grad(node as int),
            out_value: g.val(node as int),
            lhs_value: g.val(kids[0] as int),
            rhs_value: g.val(kids[kids.len() - 1] as int),
            target_gradient: g.grad(target as int),
        }
    }

    /// Whether every contribution has been applied.
    pub fn finished(&self) -> (r: bool)
        ensures
            r == self.done(),
    {
        self.node_pos == self.order.len()
    }

    /// The next contribution to compute, or nothing once the run is over.
    /// The graph is read, never changed.
    pub fn current(&self, g: &Graph) -> (r: Option<Step>)
        requires
            self.valid(*g),
        ensures
            r.is_some() == !self.done(),
            !self.done() ==> r == Some(self.spec_step(*g)),
    {
        if self.node_pos < self.order.len() {
            let node = self.order[self.node_pos];
            proof {
                assert(self.order_seq()[self.pos()] == node);
                assert(node < g.n());
                assert(g.rule_arity_ok(node as int));
                assert((self.side as int) < g.kids(node as int).len());
            }
            let num = g.num_children(node);
            let target = g.child(node, self.side);
            let lhs = g.child(node, 0);
            let rhs = g.child(node, num - 1);
            Some(
                Step {
                    node,
                    target,
                    side: self.side,
                    op: g.op(node),
                    out_gradient: g.gradient(node),
                    out_value: g.value(node),
                    lhs_value: g.value(lhs),
                    rhs_value: g.value(rhs),
                    target_gradient: g.gradient(target),
                },
            )
        } else {
            None
        }
    }
}

impl Graph {
    /// Move `start` forward past every node whose operator has no backward
    /// rule, so that it rests on a node with contributions or at the end.
    fn advance_past_settled(&self, order: &Vec<usize>, start: usize) -> (r: usize)
        requires
            forall|p: int| 0 <= p < order@.len() ==> (#[trigger] order@[p]) < self.n(),
            start <= order@.len(),
        ensures
            start <= r <= order@.len(),
            forall|p: int|
                start <= p < r ==> spec_rule_inputs(
                    self.op_of((#[trigger] order@[p]) as int),
                ) == 0,
            r < order@.len() ==> spec_rule_inputs(self.op_of(order@[r as int] as int)) > 0,
    {
        let mut pos = start;
        loop
            invariant
                forall|p: int| 0 <= p < order@.len() ==> (#[trigger] order@[p]) < self.n(),
                start <= pos <= order@.len(),
                forall|p: int|
                    start <= p < pos ==> spec_rule_inputs(
                        self.op_of((#[trigger] order@[p]) as int),
                    ) == 0,
            ensures
                start <= pos <= order@.len(),
                forall|p: int|
                    start <= p < pos ==> spec_rule_inputs(
                        self.op_of((#[trigger] order@[p]) as int),
                    ) == 0,
                pos < order@.len() ==> spec_rule_inputs(
                    self.op_of(order@[pos as int] as int),
                ) > 0,
            decreases order@.len() - pos,
        {
            if pos >= order.len() {
                break;
            }
            let nd = order[pos];
            if rule_inputs(self.op(nd)) > 0 {
                break;
            }
            pos += 1;
        }
        pos
    }
}


impl BackwardPass {
    /// Apply the contribution the cursor stands on: store the driver's
    /// computed payload as the target's new gradient and move the cursor to
    /// the next contribution. Nothing but that one gradient changes, and the
    /// target always stands strictly later in the order than the node being
    /// processed — so a node's own gradient is complete before its rule runs.
    pub fn accumulate(&mut self, g: &mut Graph, new_gradient: u64)
        requires
            old(self).valid(*old(g)),
            !old(self).done(),
        ensures
            final(self).valid(*final(g)),
            old(g).same_structure(*final(g)),
            final(g).grad(old(self).spec_step(*old(g)).target as int) == new_gradient,
            forall|j: int|
                0 <= j < old(g).n() && j != old(self).spec_step(*old(g)).target ==> (
                #[trigger] final(g).grad(j)) == old(g).grad(j),
            forall|j: int|
                0 <= j < old(g).n() ==> (#[trigger] final(g).vis(j)) == old(g).vis(j),
            final(self).order_seq() == old(self).order_seq(),
            final(self).root_id() == old(self).root_id(),
            old(self).pos() <= final(self).pos(),
            final(self).measure() < old(self).measure(),
            forall|p: int|
                old(self).pos() < p < final(self).pos() ==> spec_rule_inputs(
                    final(g).op_of((#[trigger] final(self).order_seq()[p]) as int),
                ) == 0,
            final(self).pos() == old(self).pos() ==> final(self).side_idx() == old(
                self,
            ).side_idx() + 1,
            final(self).pos() > old(self).pos() ==> final(self).side_idx() == 0 && old(
                self,
            ).side_idx() + 1 == spec_rule_inputs(
                old(g).op_of(old(self).spec_step(*old(g)).node as int),
            ),
            exists|q: int|
                old(self).pos() < q < old(self).order_seq().len() && (
                #[trigger] old(self).order_seq()[q]) == old(self).spec_step(*old(g)).target,
    {
        let node = self.order[self.node_pos];
        proof {
            assert(self.order_seq()[self.pos()] == node);
            assert(node < g.n());
            assert(g.rule_arity_ok(node as int));
            assert((self.side as int) < g.kids(node as int).len());
        }
        let target = g.child(node, self.side);
        let ghost gpre = *g;
        g.set_gradient(target, new_gradient);
        proof {
            lemma_structure_after_node_edit(gpre, *g, target as int);
            lemma_topo_order_congruence(gpre, *g, self.root@, self.order@);
            assert forall|p: int| 0 <= p < self.order_seq().len() implies g.rule_arity_ok(
                (#[trigger] self.order_seq()[p]) as int,
            ) by {
                assert(gpre.rule_arity_ok(self.order_seq()[p] as int));
                assert(g.kids(self.order_seq()[p] as int) == gpre.kids(
                    self.order_seq()[p] as int,
                ));
                assert(g.op_of(self.order_seq()[p] as int) == gpre.op_of(
                    self.order_seq()[p] as int,
                ));
            }
            // the target stands strictly later in the order
            let root = self.root@;
            assert(gpre.reaches(root, node as int));
            lemma_kid_reachable(gpre, node as int, self.side as int);
            lemma_reaches_trans(gpre, root, node as int, target as int);
            assert(target < gpre.n()) by {
                lemma_reaches_bounds(gpre, root, target as int);
            }
            assert(self.order_seq().contains(target));
            let q = choose|q: int|
                0 <= q < self.order_seq().len() && (#[trigger] self.order_seq()[q]) == target;
            assert(gpre.kids(self.order_seq()[self.pos()] as int).contains(
                self.order_seq()[q],
            )) by {
                assert(gpre.kids(node as int)[self.side as int] == target);
            }
            assert(self.pos() < q);
        }
        let op = g.op(node);
        let ni = rule_inputs(op);
        let olen = self.order.len();
        proof {
            assert(self.node_pos < olen);
        }
        let ghost mid = *self;
        self.side = self.side + 1;
        if self.side >= ni {
            self.side = 0;
            self.node_pos = self.node_pos + 1;
            let next = g.advance_past_settled(&self.order, self.node_pos);
            self.node_pos = next;
        }
        proof {
            assert(final(self).order_seq() == mid.order_seq());
        }
    }
}


impl Graph {
    /// Begin a backward run from `root`: zero the gradients and clear the
    /// marks of everything strictly below it, run the traversal engine and
    /// reverse its build order so the root comes first, and seed the root's
    /// gradient with the encoding of one. Returns the cursor over the
    /// contributions that remain.
    ///
    /// The root must not carry a stale traversal mark: a backward run leaves
    /// every reachable node marked, so a second run from the same root needs
    /// the caller to clear the root's mark first. Nothing outside the part of
    /// the graph reachable from `root` is touched.
    pub fn backward_start(&mut self, root: usize) -> (pass: BackwardPass)
        requires
            old(self).wf(),
            root < old(self).n(),
            !old(self).vis(root as int),
            old(self).arity_ok_from(root as int),
        ensures
            final(self).wf(),
            old(self).same_structure(*final(self)),
            pass.valid(*final(self)),
            pass.root_id() == root,
            pass.side_idx() == 0,
            pass.order_seq().len() > 0,
            pass.order_seq()[0] == root,
            final(self).grad(root as int) == ONE_BITS,
            forall|j: int|
                0 <= j < old(self).n() && old(self).reaches(root as int, j) && j != root ==> (
                #[trigger] final(self).grad(j)) == ZERO_BITS,
            forall|j: int|
                0 <= j < old(self).n() && old(self).reaches(root as int, j) ==> (#[trigger] final(self).vis(j)),
            forall|j: int|
                0 <= j < old(self).n() && !old(self).reaches(root as int, j) ==> (#[trigger] final(self).grad(j)) == old(self).grad(j),
            forall|j: int|
                0 <= j < old(self).n() && !old(self).reaches(root as int, j) ==> (#[trigger] final(self).vis(j)) == old(self).vis(j),
            forall|p: int|
                0 <= p < pass.pos() ==> spec_rule_inputs(
                    final(self).op_of((#[trigger] pass.order_seq()[p]) as int),
                ) == 0,
    {
        let ghost g0 = *self;
        self.reset_descendants(root);
        let ghost gr = *self;
        proof {
            // the root is not below itself, so its record is untouched
            assert(!g0.descendant(root as int, root as int)) by {
                if g0.descendant(root as int, root as int) {
                    let kk = choose|kk: int|
                        0 <= kk < g0.kids(root as int).len() && g0.reaches(
                            (#[trigger] g0.kids(root as int)[kk]) as int,
                            root as int,
                        );
                    lemma_reaches_bounds(g0, g0.kids(root as int)[kk] as int, root as int);
                }
            }
            assert(gr.node_at(root as int) == g0.node_at(root as int));
            assert(!gr.vis(root as int));
            // after the reset, everything reachable from the root is unmarked
            assert forall|j: int|
                0 <= j < gr.n() && gr.reaches(root as int, j) implies !(#[trigger] gr.vis(
                    j,
                )) by {
                lemma_reaches_congruence_one(gr, g0, root as int, j);
                if j != root {
                    assert(g0.descendant(root as int, j));
                }
            }
        }
        let build = self.topological_sort(root);
        // reverse the build order so the root comes first: the backward walk
        // processes every node before its inputs
        let m = build.len();
        let mut order: Vec<usize> = Vec::new();
        let mut p: usize = m;
        while p > 0
            invariant
                m == build@.len(),
                p <= m,
                order@.len() == m - p,
                forall|q: int|
                    0 <= q < order@.len() ==> (#[trigger] order@[q]) == build@[m - 1 - q],
            decreases p,
        {
            p = p - 1;
            order.push(build[p]);
        }
        proof {
            lemma_reversed_topo(*self, root as int, build@, order@);
        }
        let ghost gs = *self;
        self.set_gradient(root, ONE_BITS);
        proof {
            lemma_structure_after_node_edit(gs, *self, root as int);
            lemma_same_structure_trans(g0, gr, gs);
            lemma_same_structure_trans(g0, gs, *self);
            lemma_topo_order_congruence(gs, *self, root as int, order@);
        }
        let pos = self.advance_past_settled(&order, 0);
        let pass = BackwardPass { order, node_pos: pos, side: 0, root: Ghost(root as int) };
        proof {
            let fin = *self;
            // the pass is valid for the finished graph
            assert forall|p: int| 0 <= p < pass.order_seq().len() implies fin.rule_arity_ok(
                (#[trigger] pass.order_seq()[p]) as int,
            ) by {
                let nd = pass.order_seq()[p] as int;
                assert(gs.reaches(root as int, nd));
                lemma_reaches_congruence_one(gs, g0, root as int, nd);
                assert(g0.rule_arity_ok(nd));
                assert(fin.kids(nd) == g0.kids(nd));
                assert(fin.op_of(nd) == g0.op_of(nd));
            }
            assert(pass.valid(fin));
            // gradients: the root is seeded, everything strictly below it is
            // zero, everything unreachable is untouched
            assert forall|j: int|
                0 <= j < g0.n() && g0.reaches(root as int, j) && j != root implies (
                #[trigger] fin.grad(j)) == ZERO_BITS by {
                assert(g0.descendant(root as int, j));
                assert(gr.grad(j) == ZERO_BITS);
                assert(gs.grad(j) == gr.grad(j));
                assert(fin.grad(j) == gs.grad(j));
            }
            assert forall|j: int|
                0 <= j < g0.n() && g0.reaches(root as int, j) implies (#[trigger] fin.vis(
                    j,
                )) by {
                lemma_reaches_congruence_one(g0, gr, root as int, j);
                assert(gs.vis(j));
                assert(fin.vis(j) == gs.vis(j));
            }
            assert forall|j: int|
                0 <= j < g0.n() && !g0.reaches(root as int, j) implies (#[trigger] fin.grad(j))
                    == g0.grad(j) by {
                assert(j != root);
                assert(!g0.descendant(root as int, j)) by {
                    if g0.descendant(root as int, j) {
                        let kk = choose|kk: int|
                            0 <= kk < g0.kids(root as int).len() && g0.reaches(
                                (#[trigger] g0.kids(root as int)[kk]) as int,
                                j,
                            );
                        lemma_kid_reachable(g0, root as int, kk);
                        lemma_reaches_trans(
                            g0,
                            root as int,
                            g0.kids(root as int)[kk] as int,
                            j,
                        );
                    }
                }
                assert(gr.node_at(j) == g0.node_at(j));
                assert(!gr.reaches(root as int, j)) by {
                    if gr.reaches(root as int, j) {
                        lemma_reaches_congruence_one(gr, g0, root as int, j);
                    }
                }
                assert(gs.vis(j) == gr.vis(j));
                assert(gs.grad(j) == gr.grad(j));
                assert(fin.grad(j) == gs.grad(j));
                assert(fin.vis(j) == gs.vis(j));
            }
            assert forall|j: int|
                0 <= j < g0.n() && !g0.reaches(root as int, j) implies (#[trigger] fin.vis(j))
                    == g0.vis(j) by {
                assert(j != root);
                assert(!g0.descendant(root as int, j)) by {
                    if g0.descendant(root as int, j) {
                        let kk = choose|kk: int|
                            0 <= kk < g0.kids(root as int).len() && g0.reaches(
                                (#[trigger] g0.kids(root as int)[kk]) as int,
                                j,
                            );
                        lemma_kid_reachable(g0, root as int, kk);
                        lemma_reaches_trans(
                            g0,
                            root as int,
                            g0.kids(root as int)[kk] as int,
                            j,
                        );
                    }
                }
                assert(gr.node_at(j) == g0.node_at(j));
                assert(!gr.reaches(root as int, j)) by {
                    if gr.reaches(root as int, j) {
                        lemma_reaches_congruence_one(gr, g0, root as int, j);
                    }
                }
                assert(gs.vis(j) == gr.vis(j));
                assert(gs.grad(j) == gr.grad(j));
                assert(fin.grad(j) == gs.grad(j));
                assert(fin.vis(j) == gs.vis(j));
            }
        }
        pass
    }
}


impl Graph {
    /// Run a complete backward pass from `root`: reset below the root, order
    /// the reachable nodes, seed the root's gradient with the encoding of
    /// one, and walk the order root-first, calling `rule` once per
    /// contribution and storing what it returns as the target's new gradient.
    ///
    /// The contract fixes everything but the arithmetic. Gradients only
    /// change inside the part of the graph reachable from `root` (so a
    /// detached node keeps its gradient), the root's own gradient is the
    /// encoding of one when the pass ends, and every reachable node ends
    /// marked. Beyond that, the final gradients are exactly the outcome of
    /// one complete run of the step machine, recorded by [`runs_to`]: from
    /// the seeded gradients, one contribution per input of each node in
    /// root-first order, each computed by `rule` from precisely the payloads
    /// the step at that cursor carries. [`lemma_run_covers_every_input`]
    /// shows that such a run leaves no input out.
    pub fn backward<F: Fn(Step) -> u64>(&mut self, root: usize, rule: F) -> (pass: BackwardPass)
        requires
            old(self).wf(),
            root < old(self).n(),
            !old(self).vis(root as int),
            old(self).arity_ok_from(root as int),
            forall|s: Step| #[trigger] call_requires(rule, (s,)),
        ensures
            final(self).wf(),
            old(self).same_structure(*final(self)),
            final(self).grad(root as int) == ONE_BITS,
            forall|j: int|
                0 <= j < old(self).n() && old(self).reaches(root as int, j) ==> (#[trigger] final(self).vis(j)),
            forall|j: int|
                0 <= j < old(self).n() && !old(self).reaches(root as int, j) ==> (#[trigger] final(self).grad(j)) == old(self).grad(j),
            forall|j: int|
                0 <= j < old(self).n() && !old(self).reaches(root as int, j) ==> (#[trigger] final(self).vis(j)) == old(self).vis(j),
            forall|j: int|
                0 <= j < old(self).n() && old(self).reaches(root as int, j) && j != root ==> ((
                #[trigger] final(self).grad(j)) == ZERO_BITS || exists|s: Step|
                    call_ensures(rule, (s,), final(self).grad(j))),
            pass.valid(*final(self)),
            pass.done(),
            pass.root_id() == root,
            pass.order_seq().len() > 0,
            pass.order_seq()[0] == root,
            exists|order: Seq<usize>, responses: Seq<u64>|
                topo_order(*old(self), root as int, order) && #[trigger] runs_to(
                    rule,
                    *old(self),
                    order,
                    next_ruled(*old(self), order, 0),
                    0,
                    old(self).seeded_grads(root as int),
                    responses,
                    order.len() as int,
                    0,
                    final(self).grads_of(),
                ),
    {
        let ghost orig = *self;
        let mut pass = self.backward_start(root);
        let ghost order = pass.order_seq();
        let ghost pos0 = pass.pos();
        let ghost mut responses: Seq<u64> = Seq::empty();
        proof {
            // the dependency order, read over the structure of the untouched
            // starting graph
            lemma_same_structure_sym(orig, *self);
            lemma_topo_order_congruence(*self, orig, root as int, order);
            // the cursor starts at the first node with a backward rule
            assert forall|m: int| 0 <= m < pos0 implies spec_rule_inputs(
                orig.op_of((#[trigger] order[m]) as int),
            ) == 0 by {
                assert(order[m] < self.n());
                assert(orig.op_of(order[m] as int) == self.op_of(order[m] as int));
            }
            if pos0 < order.len() {
                assert(orig.op_of(order[pos0] as int) == self.op_of(order[pos0] as int));
            }
            lemma_next_ruled_unique(orig, order, 0, pos0);
            // the gradients start seeded: one at the root, zero strictly
            // below it, untouched elsewhere
            assert(self.grads_of() =~= orig.seeded_grads(root as int));
            assert(runs_to(
                rule,
                orig,
                order,
                pos0,
                0,
                orig.seeded_grads(root as int),
                responses,
                pass.pos(),
                pass.side_idx(),
                self.grads_of(),
            ));
        }
        loop
            invariant
                orig == *old(self),
                orig.wf(),
                root < orig.n(),
                pass.valid(*self),
                pass.root_id() == root,
                pass.order_seq().len() > 0,
                pass.order_seq()[0] == root,
                orig.same_structure(*self),
                self.grad(root as int) == ONE_BITS,
                forall|j: int|
                    0 <= j < orig.n() && orig.reaches(root as int, j) ==> (#[trigger] self.vis(
                        j,
                    )),
                forall|j: int|
                    0 <= j < orig.n() && !orig.reaches(root as int, j) ==> (#[trigger] self.grad(
                        j,
                    )) == orig.grad(j),
                forall|j: int|
                    0 <= j < orig.n() && !orig.reaches(root as int, j) ==> (#[trigger] self.vis(
                        j,
                    )) == orig.vis(j),
                forall|j: int|
                    0 <= j < orig.n() && orig.reaches(root as int, j) && j != root ==> ((
                    #[trigger] self.grad(j)) == ZERO_BITS || exists|s: Step|
                        call_ensures(rule, (s,), self.grad(j))),
                forall|s: Step| #[trigger] call_requires(rule, (s,)),
                order == pass.order_seq(),
                pos0 == next_ruled(orig, order, 0),
                topo_order(orig, root as int, order),
                runs_to(
                    rule,
                    orig,
                    order,
                    pos0,
                    0,
                    orig.seeded_grads(root as int),
                    responses,
                    pass.pos(),
                    pass.side_idx(),
                    self.grads_of(),
                ),
            ensures
                orig == *old(self),
                orig.same_structure(*self),
                self.wf(),
                pass.valid(*self),
                pass.done(),
                pass.root_id() == root,
                pass.order_seq().len() > 0,
                pass.order_seq()[0] == root,
                self.grad(root as int) == ONE_BITS,
                forall|j: int|
                    0 <= j < orig.n() && orig.reaches(root as int, j) ==> (#[trigger] self.vis(
                        j,
                    )),
                forall|j: int|
                    0 <= j < orig.n() && !orig.reaches(root as int, j) ==> (#[trigger] self.grad(
                        j,
                    )) == orig.grad(j),
                forall|j: int|
                    0 <= j < orig.n() && !orig.reaches(root as int, j) ==> (#[trigger] self.vis(
                        j,
                    )) == orig.vis(j),
                forall|j: int|
                    0 <= j < orig.n() && orig.reaches(root as int, j) && j != root ==> ((
                    #[trigger] self.grad(j)) == ZERO_BITS || exists|s: Step|
                        call_ensures(rule, (s,), self.grad(j))),
                order == pass.order_seq(),
                pos0 == next_ruled(orig, order, 0),
                topo_order(orig, root as int, order),
                runs_to(
                    rule,
                    orig,
                    order,
                    pos0,
                    0,
                    orig.seeded_grads(root as int),
                    responses,
                    pass.pos(),
                    pass.side_idx(),
                    self.grads_of(),
                ),
            decreases pass.measure(),
        {
            let step_opt = pass.current(self);
            match step_opt {
                Some(step) => {
                    let ghost gpre = *self;
                    let ghost ppre = pass;
                    let new_gradient = rule(step);
                    pass.accumulate(self, new_gradient);
                    proof {
                        let target = ppre.spec_step(gpre).target;
                        assert(step == ppre.spec_step(gpre));
                        // the target is a reachable node other than the root
                        let q = choose|q: int|
                            ppre.pos() < q < ppre.order_seq().len() && (
                            #[trigger] ppre.order_seq()[q]) == target;
                        assert(gpre.reaches(root as int, target as int));
                        assert(target as int != root as int) by {
                            assert(ppre.order_seq()[0] == root);
                        }
                        assert forall|j: int|
                            0 <= j < orig.n() && orig.reaches(root as int, j) implies (
                        #[trigger] self.vis(j)) by {
                            assert(self.vis(j) == gpre.vis(j));
                        }
                        assert forall|j: int|
                            0 <= j < orig.n() && !orig.reaches(root as int, j) implies (
                        #[trigger] self.grad(j)) == orig.grad(j) by {
                            assert(j != target) by {
                                if j == target {
                                    lemma_reaches_congruence_one(
                                        gpre,
                                        orig,
                                        root as int,
                                        target as int,
                                    );
                                }
                            }
                            assert(self.grad(j) == gpre.grad(j));
                        }
                        assert forall|j: int|
                            0 <= j < orig.n() && !orig.reaches(root as int, j) implies (
                        #[trigger] self.vis(j)) == orig.vis(j) by {
                            assert(self.vis(j) == gpre.vis(j));
                        }
                        assert forall|j: int|
                            0 <= j < orig.n() && orig.reaches(root as int, j) && j != root
                            implies ((#[trigger] self.grad(j)) == ZERO_BITS || exists|s: Step|
                                call_ensures(rule, (s,), self.grad(j))) by {
                            if j == target {
                                assert(self.grad(j) == new_gradient);
                                assert(call_ensures(rule, (step,), new_gradient));
                            } else {
                                assert(self.grad(j) == gpre.grad(j));
                            }
                        }
                        assert(self.grad(root as int) == ONE_BITS) by {
                            assert(root as int != target as int);
                            assert(self.grad(root as int) == gpre.grad(root as int));
                        }
                        // extend the recorded run by this contribution
                        let pp = ppre.pos();
                        let ss = ppre.side_idx();
                        let node = order[pp];
                        assert(node < orig.n());
                        assert(orig.kids(node as int) == gpre.kids(node as int));
                        assert(orig.val(node as int) == gpre.val(node as int));
                        assert(orig.op_of(node as int) == gpre.op_of(node as int));
                        let kids = orig.kids(node as int);
                        assert(orig.val(kids[0] as int) == gpre.val(kids[0] as int));
                        assert(orig.val(kids[kids.len() - 1] as int) == gpre.val(
                            kids[kids.len() - 1] as int,
                        ));
                        assert(gpre.grads_of()[node as int] == gpre.grad(node as int));
                        assert(gpre.grads_of()[target as int] == gpre.grad(target as int));
                        assert(step == step_at(orig, order, pp, ss, gpre.grads_of()));
                        assert(self.grads_of() =~= gpre.grads_of().update(
                            target as int,
                            new_gradient,
                        ));
                        assert(next_cursor(orig, order, pp, ss) == (
                            pass.pos(),
                            pass.side_idx(),
                        )) by {
                            if pass.pos() == pp {
                                assert(pass.side_idx() == ss + 1);
                                assert(pass.side_idx() < spec_rule_inputs(
                                    self.op_of(order[pp] as int),
                                ));
                                assert(orig.op_of(order[pp] as int) == self.op_of(
                                    order[pp] as int,
                                ));
                            } else {
                                assert(ss + 1 == spec_rule_inputs(
                                    gpre.op_of(node as int),
                                ));
                                assert forall|m: int| pp + 1 <= m < pass.pos() implies
                                    spec_rule_inputs(
                                        orig.op_of((#[trigger] order[m]) as int),
                                    ) == 0 by {
                                    assert(spec_rule_inputs(
                                        self.op_of(order[m] as int),
                                    ) == 0);
                                    assert(order[m] < orig.n());
                                    assert(orig.op_of(order[m] as int) == self.op_of(
                                        order[m] as int,
                                    ));
                                }
                                if pass.pos() < order.len() {
                                    assert(pass.side_idx() == 0);
                                    assert(spec_rule_inputs(
                                        self.op_of(order[pass.pos()] as int),
                                    ) > 0);
                                    assert(orig.op_of(order[pass.pos()] as int)
                                        == self.op_of(order[pass.pos()] as int));
                                }
                                lemma_next_ruled_unique(orig, order, pp + 1, pass.pos());
                                assert(pass.side_idx() == 0);
                            }
                        }
                        lemma_runs_to_snoc(
                            rule,
                            orig,
                            order,
                            pos0,
                            0,
                            orig.seeded_grads(root as int),
                            responses,
                            pp,
                            ss,
                            gpre.grads_of(),
                            new_gradient,
                        );
                        responses = responses.push(new_gradient);
                    }
                }
                None => {
                    break;
                }
            }
        }
        proof {
            assert(pass.pos() == order.len() && pass.side_idx() == 0);
        }
        pass
    }
}


/// The position of the first node at or after `q` in `order` whose operator
/// has a backward rule (or the end of the order).
pub open spec fn next_ruled(g: Graph, order: Seq<usize>, q: int) -> int
    decreases order.len() - q when 0 <= q <= order.len()
{
    if q < 0 || q >= order.len() {
        order.len() as int
    } else if spec_rule_inputs(g.op_of(order[q] as int)) > 0 {
        q
    } else {
        next_ruled(g, order, q + 1)
    }
}

/// `next_ruled` is the unique position whose prefix carries no rule and
/// which itself carries one or is the end.
proof fn lemma_next_ruled_unique(g: Graph, order: Seq<usize>, q: int, p: int)
    requires
        0 <= q <= p <= order.len(),
        forall|m: int|
            q <= m < p ==> spec_rule_inputs(g.op_of((#[trigger] order[m]) as int)) == 0,
        p < order.len() ==> spec_rule_inputs(g.op_of(order[p] as int)) > 0,
    ensures
        next_ruled(g, order, q) == p,
    decreases p - q,
{
    if q < p {
        assert(spec_rule_inputs(g.op_of(order[q] as int)) == 0);
        lemma_next_ruled_unique(g, order, q + 1, p);
    }
}

/// The cursor that follows `(pos, side)` once the contribution there has
/// been applied.
pub open spec fn next_cursor(g: Graph, order: Seq<usize>, pos: int, side: int) -> (int, int) {
    if side + 1 < spec_rule_inputs(g.op_of(order[pos] as int)) {
        (pos, side + 1)
    } else {
        (next_ruled(g, order, pos + 1), 0)
    }
}

/// The step issued at cursor `(pos, side)`, over the structure and forward
/// payloads of `g` and the gradient payloads in `grads`.
pub open spec fn step_at(g: Graph, order: Seq<usize>, pos: int, side: int, grads: Seq<u64>) -> Step {
    let node = order[pos];
    let kids = g.kids(node as int);
    let target = kids[side];
    Step {
        node,
        target,
        side: side as usize,
        op: g.op_of(node as int),
        out_gradient: grads[node as int],
        out_value: g.val(node as int),
        lhs_value: g.val(kids[0] as int),
        rhs_value: g.val(kids[kids.len() - 1] as int),
        target_gradient: grads[target as int],
    }
}

/// One backward run, step by step: starting at cursor `(pos, side)` with
/// gradient payloads `grads`, the driver's answers `responses` are applied
/// one per step until the cursor reaches `(end_pos, end_side)`, where the
/// gradients read `final_grads`. The structure and forward payloads of `g`
/// never change along the way.
pub open spec fn runs_to<F: Fn(Step) -> u64>(
    rule: F,
    g: Graph,
    order: Seq<usize>,
    pos: int,
    side: int,
    grads: Seq<u64>,
    responses: Seq<u64>,
    end_pos: int,
    end_side: int,
    final_grads: Seq<u64>,
) -> bool
    decreases responses.len(),
{
    if pos == end_pos && side == end_side {
        responses.len() == 0 && final_grads == grads
    } else if responses.len() == 0 {
        false
    } else {
        let s = step_at(g, order, pos, side, grads);
        let r = responses[0];
        let c = next_cursor(g, order, pos, side);
        0 <= pos < order.len() && 0 <= side && call_ensures(rule, (s,), r) && runs_to(
            rule,
            g,
            order,
            c.0,
            c.1,
            grads.update(s.target as int, r),
            responses.drop_first(),
            end_pos,
            end_side,
            final_grads,
        )
    }
}

/// `next_ruled` never moves backwards and never passes the end.
proof fn lemma_next_ruled_bounds(g: Graph, order: Seq<usize>, q: int)
    requires
        0 <= q <= order.len(),
    ensures
        q <= next_ruled(g, order, q) <= order.len(),
    decreases order.len() - q,
{
    if q < order.len() && spec_rule_inputs(g.op_of(order[q] as int)) == 0 {
        lemma_next_ruled_bounds(g, order, q + 1);
    }
}

/// Along a run the cursor only moves forward.
proof fn lemma_runs_to_forward<F: Fn(Step) -> u64>(
    rule: F,
    g: Graph,
    order: Seq<usize>,
    pos: int,
    side: int,
    grads: Seq<u64>,
    responses: Seq<u64>,
    end_pos: int,
    end_side: int,
    final_grads: Seq<u64>,
)
    requires
        runs_to(rule, g, order, pos, side, grads, responses, end_pos, end_side, final_grads),
    ensures
        pos < end_pos || (pos == end_pos && side <= end_side),
    decreases responses.len(),
{
    if !(pos == end_pos && side == end_side) {
        let s = step_at(g, order, pos, side, grads);
        let c = next_cursor(g, order, pos, side);
        lemma_runs_to_forward(
            rule,
            g,
            order,
            c.0,
            c.1,
            grads.update(s.target as int, responses[0]),
            responses.drop_first(),
            end_pos,
            end_side,
            final_grads,
        );
        if !(side + 1 < spec_rule_inputs(g.op_of(order[pos] as int))) {
            lemma_next_ruled_bounds(g, order, pos + 1);
        }
    }
}

/// Extending a run by one applied contribution.
proof fn lemma_runs_to_snoc<F: Fn(Step) -> u64>(
    rule: F,
    g: Graph,
    order: Seq<usize>,
    pos: int,
    side: int,
    grads: Seq<u64>,
    responses: Seq<u64>,
    end_pos: int,
    end_side: int,
    final_grads: Seq<u64>,
    r: u64,
)
    requires
        runs_to(rule, g, order, pos, side, grads, responses, end_pos, end_side, final_grads),
        0 <= end_pos < order.len(),
        0 <= end_side,
        call_ensures(rule, (step_at(g, order, end_pos, end_side, final_grads),), r),
    ensures
        runs_to(
            rule,
            g,
            order,
            pos,
            side,
            grads,
            responses.push(r),
            next_cursor(g, order, end_pos, end_side).0,
            next_cursor(g, order, end_pos, end_side).1,
            final_grads.update(
                step_at(g, order, end_pos, end_side, final_grads).target as int,
                r,
            ),
        ),
    decreases responses.len(),
{
    let c = next_cursor(g, order, end_pos, end_side);
    // the new end lies strictly past the old one, and so past every cursor
    // of the run
    assert(end_pos < c.0 || (end_pos == c.0 && end_side < c.1)) by {
        if !(end_side + 1 < spec_rule_inputs(g.op_of(order[end_pos] as int))) {
            lemma_next_ruled_bounds(g, order, end_pos + 1);
        }
    }
    lemma_runs_to_forward(
        rule,
        g,
        order,
        pos,
        side,
        grads,
        responses,
        end_pos,
        end_side,
        final_grads,
    );
    if pos == end_pos && side == end_side {
        assert(responses.len() == 0 && final_grads == grads);
        let s = step_at(g, order, pos, side, grads);
        let resp2 = responses.push(r);
        assert(resp2[0] == r);
        assert(resp2.drop_first() =~= Seq::<u64>::empty());
        assert(runs_to(
            rule,
            g,
            order,
            c.0,
            c.1,
            grads.update(s.target as int, r),
            resp2.drop_first(),
            c.0,
            c.1,
            final_grads.update(s.target as int, r),
        ));
    } else {
        let s = step_at(g, order, pos, side, grads);
        let resp2 = responses.push(r);
        assert(resp2[0] == responses[0]);
        assert(resp2.drop_first() =~= responses.drop_first().push(r));
        lemma_runs_to_snoc(
            rule,
            g,
            order,
            next_cursor(g, order, pos, side).0,
            next_cursor(g, order, pos, side).1,
            grads.update(s.target as int, responses[0]),
            responses.drop_first(),
            end_pos,
            end_side,
            final_grads,
            r,
        );
    }
}

impl Graph {
    /// The gradient payloads of every node, in index order.
    pub open spec fn grads_of(&self) -> Seq<u64> {
        Seq::new(self.n() as nat, |j: int| self.grad(j))
    }

    /// The gradient payloads a backward run from `root` starts from: one at
    /// the root, zero strictly below it, untouched elsewhere.
    pub open spec fn seeded_grads(&self, root: int) -> Seq<u64> {
        Seq::new(
            self.n() as nat,
            |j: int|
                if j == root {
                    ONE_BITS
                } else if self.reaches(root, j) {
                    ZERO_BITS
                } else {
                    self.grad(j)
                },
        )
    }
}


/// `next_ruled` never passes over a position that carries a rule.
proof fn lemma_next_ruled_min(g: Graph, order: Seq<usize>, q: int, p: int)
    requires
        0 <= q <= p < order.len(),
        spec_rule_inputs(g.op_of(order[p] as int)) > 0,
    ensures
        next_ruled(g, order, q) <= p,
    decreases p - q,
{
    if q < p && spec_rule_inputs(g.op_of(order[q] as int)) == 0 {
        lemma_next_ruled_min(g, order, q + 1, p);
    }
}

/// A run that starts at or before cursor `(p, s)` and ends past it applies a
/// contribution at that very cursor: some response of the run answers a step
/// for node `order[p]`, input slot `s`, aimed at that input.
proof fn lemma_run_visits<F: Fn(Step) -> u64>(
    rule: F,
    g: Graph,
    order: Seq<usize>,
    pos: int,
    side: int,
    grads: Seq<u64>,
    responses: Seq<u64>,
    end_pos: int,
    end_side: int,
    final_grads: Seq<u64>,
    p: int,
    s: int,
)
    requires
        runs_to(rule, g, order, pos, side, grads, responses, end_pos, end_side, final_grads),
        pos < p || (pos == p && side <= s),
        p < end_pos || (p == end_pos && s < end_side),
        0 <= p < order.len(),
        0 <= s < spec_rule_inputs(g.op_of(order[p] as int)),
    ensures
        exists|m: int, st: Step|
            0 <= m < responses.len() && st.node == order[p] && st.op == g.op_of(order[p] as int)
                && st.side == s && st.target == g.kids(order[p] as int)[s]
                && #[trigger] call_ensures(rule, (st,), responses[m]),
    decreases responses.len(),
{
    assert(!(pos == end_pos && side == end_side));
    let st0 = step_at(g, order, pos, side, grads);
    let c = next_cursor(g, order, pos, side);
    if pos == p && side == s {
        assert(st0.node == order[p]);
        assert(st0.op == g.op_of(order[p] as int));
        assert(st0.side == s);
        assert(st0.target == g.kids(order[p] as int)[s]);
        assert(call_ensures(rule, (st0,), responses[0]));
        assert(0 <= 0 < responses.len() && st0.node == order[p] && st0.op == g.op_of(
            order[p] as int,
        ) && st0.side == s && st0.target == g.kids(order[p] as int)[s] && call_ensures(
            rule,
            (st0,),
            responses[0],
        ));
    } else {
        // the next cursor still lies at or before `(p, s)`
        assert(c.0 < p || (c.0 == p && c.1 <= s)) by {
            if side + 1 < spec_rule_inputs(g.op_of(order[pos] as int)) {
            } else {
                assert(pos < p);
                lemma_next_ruled_min(g, order, pos + 1, p);
            }
        }
        lemma_run_visits(
            rule,
            g,
            order,
            c.0,
            c.1,
            grads.update(st0.target as int, responses[0]),
            responses.drop_first(),
            end_pos,
            end_side,
            final_grads,
            p,
            s,
        );
        let (m2, st2) = choose|m2: int, st2: Step|
            0 <= m2 < responses.drop_first().len() && st2.node == order[p] && st2.op == g.op_of(
                order[p] as int,
            ) && st2.side == s && st2.target == g.kids(order[p] as int)[s]
                && #[trigger] call_ensures(rule, (st2,), responses.drop_first()[m2]);
        assert(responses.drop_first()[m2] == responses[m2 + 1]);
        assert(0 <= m2 + 1 < responses.len() && st2.node == order[p] && st2.op == g.op_of(
            order[p] as int,
        ) && st2.side == s && st2.target == g.kids(order[p] as int)[s] && call_ensures(
            rule,
            (st2,),
            responses[m2 + 1],
        ));
    }
}

/// Accumulation covers every path: during one complete backward run, every
/// input slot of every listed node whose operator has a backward rule is
/// answered by the rule exactly where the engine aims it. In particular a
/// node used as an input of a reachable node always receives a contribution,
/// while a detached leaf — which records no inputs — never passes one on.
pub proof fn lemma_run_covers_every_input<F: Fn(Step) -> u64>(
    rule: F,
    g: Graph,
    order: Seq<usize>,
    grads0: Seq<u64>,
    responses: Seq<u64>,
    final_grads: Seq<u64>,
    p: int,
    s: int,
)
    requires
        runs_to(
            rule,
            g,
            order,
            next_ruled(g, order, 0),
            0,
            grads0,
            responses,
            order.len() as int,
            0,
            final_grads,
        ),
        0 <= p < order.len(),
        0 <= s < spec_rule_inputs(g.op_of(order[p] as int)),
    ensures
        exists|m: int, st: Step|
            0 <= m < responses.len() && st.node == order[p] && st.op == g.op_of(order[p] as int)
                && st.side == s && st.target == g.kids(order[p] as int)[s]
                && #[trigger] call_ensures(rule, (st,), responses[m]),
{
    lemma_next_ruled_min(g, order, 0, p);
    lemma_run_visits(
        rule,
        g,
        order,
        next_ruled(g, order, 0),
        0,
        grads0,
        responses,
        order.len() as int,
        0,
        final_grads,
        p,
        s,
    );
}

} // verus!






