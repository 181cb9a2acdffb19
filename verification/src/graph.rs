//! The computation graph: an arena of nodes, each holding an opaque scalar
//! payload, a gradient accumulator, an operator tag and the indices of its
//! inputs.
//!
//! A node's inputs always have strictly smaller indices than the node itself,
//! so every graph built through this interface is acyclic by construction.

use vstd::prelude::*;

verus! {

/// The 64-bit payload that encodes the scalar zero
/// (the IEEE 754 double-precision bit pattern of positive zero).
pub const ZERO_BITS: u64 = 0;

/// The 64-bit payload that encodes the scalar one
/// (the IEEE 754 double-precision bit pattern of one).
pub const ONE_BITS: u64 = 0x3FF0_0000_0000_0000;

/// The operator that produced a node. `Leaf` marks a source value with no
/// inputs; the binary operators take two inputs ordered left then right; the
/// remaining operators take a single input.
#[derive(Clone, Copy, Debug, PartialEq, Eq, Structural)]
pub enum Op {
    Leaf,
    Add,
    Mul,
    Tanh,
    Exp,
    Pow,
    Sub,
    Div,
    Relu,
    Neg,
}

/// True for the operators whose backward rule reads two inputs.
pub open spec fn is_binary(op: Op) -> bool {
    op == Op::Add || op == Op::Sub || op == Op::Mul || op == Op::Div
}

/// True for the operators whose backward rule reads a single input.
pub open spec fn is_unary(op: Op) -> bool {
    op == Op::Neg || op == Op::Tanh || op == Op::Exp || op == Op::Pow
}

/// One vertex of the computation graph.
///
/// `value` and `gradient` are opaque scalar payloads; `children` lists the
/// indices of the node's inputs; `visited` is transient traversal state; `id`
/// records the creation order.
#[derive(Debug)]
pub struct ValueData {
    pub value: u64,
    pub children: Vec<usize>,
    pub gradient: u64,
    pub op: Op,
    pub visited: bool,
    pub id: usize,
}

impl ValueData {
    /// A fresh leaf record holding `value`: no inputs, zero gradient,
    /// not visited.
    pub fn new(value: u64) -> (v: ValueData)
        ensures
            v.value == value,
            v.children@ == Seq::<usize>::empty(),
            v.gradient == ZERO_BITS,
            v.op == Op::Leaf,
            !v.visited,
            v.id == 0,
    {
        ValueData {
            value,
            children: Vec::new(),
            gradient: ZERO_BITS,
            op: Op::Leaf,
            visited: false,
            id: 0,
        }
    }
}

/// The arena that owns every node. Nodes are shared by index: a node may be
/// listed as an input of any number of later nodes.
#[derive(Debug)]
pub struct Graph {
    nodes: Vec<ValueData>,
}

impl Graph {
    /// The node record at index `i`.
    pub closed spec fn node_at(&self, i: int) -> ValueData {
        self.nodes@[i]
    }

    /// How many nodes the graph holds.
    pub closed spec fn n(&self) -> int {
        self.nodes@.len() as int
    }

    /// The scalar payload of node `i`.
    pub open spec fn val(&self, i: int) -> u64 {
        self.node_at(i).value
    }

    /// The gradient payload of node `i`.
    pub open spec fn grad(&self, i: int) -> u64 {
        self.node_at(i).gradient
    }

    /// The operator tag of node `i`.
    pub open spec fn op_of(&self, i: int) -> Op {
        self.node_at(i).op
    }

    /// The traversal mark of node `i`.
    pub open spec fn vis(&self, i: int) -> bool {
        self.node_at(i).visited
    }

    /// The input indices of node `i`, ordered left then right.
    pub open spec fn kids(&self, i: int) -> Seq<usize> {
        self.node_at(i).children@
    }

    /// The creation-order id of node `i`.
    pub open spec fn id_of(&self, i: int) -> usize {
        self.node_at(i).id
    }

    /// Every input of every node has a strictly smaller index than the node
    /// itself (so the graph is acyclic), and ids record the creation order.
    pub open spec fn wf(&self) -> bool {
        &&& forall|i: int, k: int|
            0 <= i < self.n() && 0 <= k < self.kids(i).len() ==> (#[trigger] self.kids(i)[k]) < i
        &&& forall|i: int| 0 <= i < self.n() ==> (#[trigger] self.id_of(i)) == i
    }

    /// `other` has the same nodes, edges, operators, payloads and ids as
    /// `self`; only gradients and traversal marks may differ.
    pub open spec fn same_structure(&self, other: Graph) -> bool {
        &&& other.n() == self.n()
        &&& forall|i: int| 0 <= i < self.n() ==> (#[trigger] other.kids(i)) == self.kids(i)
        &&& forall|i: int| 0 <= i < self.n() ==> (#[trigger] other.op_of(i)) == self.op_of(i)
        &&& forall|i: int| 0 <= i < self.n() ==> (#[trigger] other.val(i)) == self.val(i)
        &&& forall|i: int| 0 <= i < self.n() ==> (#[trigger] other.id_of(i)) == self.id_of(i)
    }

    /// The first `m` node records of `self` and `other` agree exactly.
    pub open spec fn prefix_unchanged(&self, other: Graph, m: int) -> bool {
        forall|j: int| 0 <= j < m ==> (#[trigger] other.node_at(j)) == self.node_at(j)
    }

    /// Node `j` is reachable from node `i` along input edges (every node
    /// reaches itself).
    pub open spec fn reaches(&self, i: int, j: int) -> bool
        decreases i,
    {
        j == i || (0 <= i < self.n() && exists|k: int|
            0 <= k < self.kids(i).len() && (#[trigger] self.kids(i)[k]) < i
                && self.reaches(self.kids(i)[k] as int, j))
    }

    /// An empty graph.
    pub fn new() -> (g: Graph)
        ensures
            g.n() == 0,
            g.wf(),
    {
        Graph { nodes: Vec::new() }
    }

    /// How many nodes the graph holds.
    pub fn node_count(&self) -> (r: usize)
        ensures
            r == self.n(),
    {
        self.nodes.len()
    }

    /// Append a node built from raw parts: a payload, the indices of its
    /// inputs, and an operator tag. Returns the new node's index. No existing
    /// node is changed.
    pub fn from(&mut self, value: u64, children: Vec<usize>, op: Op) -> (i: usize)
        requires
            old(self).wf(),
            forall|k: int| 0 <= k < children@.len() ==> (#[trigger] children@[k]) < old(self).n(),
        ensures
            final(self).wf(),
            final(self).n() == old(self).n() + 1,
            i == old(self).n(),
            old(self).prefix_unchanged(*final(self), old(self).n()),
            final(self).val(i as int) == value,
            final(self).kids(i as int) == children@,
            final(self).op_of(i as int) == op,
            final(self).grad(i as int) == ZERO_BITS,
            !final(self).vis(i as int),
            final(self).id_of(i as int) == i,
    {
        let i = self.nodes.len();
        let node = ValueData { value, children, gradient: ZERO_BITS, op, visited: false, id: i };
        let ghost pushed = node;
        self.nodes.push(node);
        proof {
            assert(self.node_at(i as int) == pushed);
            assert forall|a: int, k: int|
                0 <= a < self.n() && 0 <= k < self.kids(a).len() implies (#[trigger] self.kids(
                a,
            )[k]) < a by {
                if a < i {
                    assert(self.node_at(a) == old(self).node_at(a));
                    assert(old(self).kids(a)[k] < a);
                } else {
                    assert(self.kids(a) == pushed.children@);
                    assert(pushed.children@[k] < i);
                }
            }
            assert forall|a: int| 0 <= a < self.n() implies (#[trigger] self.id_of(a)) == a by {
                if a < i {
                    assert(self.node_at(a) == old(self).node_at(a));
                    assert(old(self).id_of(a) == a);
                }
            }
        }
        i
    }

    /// Append a leaf node holding `value`: a source value with no inputs and
    /// zero gradient.
    pub fn leaf(&mut self, value: u64) -> (i: usize)
        requires
            old(self).wf(),
        ensures
            final(self).wf(),
            final(self).n() == old(self).n() + 1,
            i == old(self).n(),
            old(self).prefix_unchanged(*final(self), old(self).n()),
            final(self).val(i as int) == value,
            final(self).kids(i as int) == Seq::<usize>::empty(),
            final(self).op_of(i as int) == Op::Leaf,
            final(self).grad(i as int) == ZERO_BITS,
            !final(self).vis(i as int),
            final(self).id_of(i as int) == i,
    {
        self.from(value, Vec::new(), Op::Leaf)
    }

    /// Append a node with two inputs. Private helper shared by the binary
    /// operator constructors.
    fn binary(&mut self, op: Op, lhs: usize, rhs: usize, value: u64) -> (i: usize)
        requires
            old(self).wf(),
            lhs < old(self).n(),
            rhs < old(self).n(),
        ensures
            final(self).wf(),
            final(self).n() == old(self).n() + 1,
            i == old(self).n(),
            old(self).prefix_unchanged(*final(self), old(self).n()),
            final(self).val(i as int) == value,
            final(self).kids(i as int) == seq![lhs, rhs],
            final(self).op_of(i as int) == op,
            final(self).grad(i as int) == ZERO_BITS,
            !final(self).vis(i as int),
    {
        let mut children: Vec<usize> = Vec::new();
        children.push(lhs);
        children.push(rhs);
        proof {
            assert(children@ =~= seq![lhs, rhs]);
        }
        self.from(value, children, op)
    }

    /// Append a node with one input. Private helper shared by the unary
    /// operator constructors.
    fn unary(&mut self, op: Op, input: usize, value: u64) -> (i: usize)
        requires
            old(self).wf(),
            input < old(self).n(),
        ensures
            final(self).wf(),
            final(self).n() == old(self).n() + 1,
            i == old(self).n(),
            old(self).prefix_unchanged(*final(self), old(self).n()),
            final(self).val(i as int) == value,
            final(self).kids(i as int) == seq![input],
            final(self).op_of(i as int) == op,
            final(self).grad(i as int) == ZERO_BITS,
            !final(self).vis(i as int),
    {
        let mut children: Vec<usize> = Vec::new();
        children.push(input);
        proof {
            assert(children@ =~= seq![input]);
        }
        self.from(value, children, op)
    }

    /// Append a sum node over `lhs` and `rhs`. The caller supplies the
    /// forward payload, which this engine stores without interpreting it.
    pub fn add(&mut self, lhs: usize, rhs: usize, value: u64) -> (i: usize)
        requires
            old(self).wf(),
            lhs < old(self).n(),
            rhs < old(self).n(),
        ensures
            final(self).wf(),
            final(self).n() == old(self).n() + 1,
            i == old(self).n(),
            old(self).prefix_unchanged(*final(self), old(self).n()),
            final(self).val(i as int) == value,
            final(self).kids(i as int) == seq![lhs, rhs],
            final(self).op_of(i as int) == Op::Add,
            final(self).grad(i as int) == ZERO_BITS,
            !final(self).vis(i as int),
    {
        self.binary(Op::Add, lhs, rhs, value)
    }

    /// Append a difference node over `lhs` and `rhs`.
    pub fn sub(&mut self, lhs: usize, rhs: usize, value: u64) -> (i: usize)
        requires
            old(self).wf(),
            lhs < old(self).n(),
            rhs < old(self).n(),
        ensures
            final(self).wf(),
            final(self).n() == old(self).n() + 1,
            i == old(self).n(),
            old(self).prefix_unchanged(*final(self), old(self).n()),
            final(self).val(i as int) == value,
            final(self).kids(i as int) == seq![lhs, rhs],
            final(self).op_of(i as int) == Op::Sub,
            final(self).grad(i as int) == ZERO_BITS,
            !final(self).vis(i as int),
    {
        self.binary(Op::Sub, lhs, rhs, value)
    }

    /// Append a product node over `lhs` and `rhs`.
    pub fn mul(&mut self, lhs: usize, rhs: usize, value: u64) -> (i: usize)
        requires
            old(self).wf(),
            lhs < old(self).n(),
            rhs < old(self).n(),
        ensures
            final(self).wf(),
            final(self).n() == old(self).n() + 1,
            i == old(self).n(),
            old(self).prefix_unchanged(*final(self), old(self).n()),
            final(self).val(i as int) == value,
            final(self).kids(i as int) == seq![lhs, rhs],
            final(self).op_of(i as int) == Op::Mul,
            final(self).grad(i as int) == ZERO_BITS,
            !final(self).vis(i as int),
    {
        self.binary(Op::Mul, lhs, rhs, value)
    }

    /// Append a quotient node over `lhs` and `rhs`.
    pub fn div(&mut self, lhs: usize, rhs: usize, value: u64) -> (i: usize)
        requires
            old(self).wf(),
            lhs < old(self).n(),
            rhs < old(self).n(),
        ensures
            final(self).wf(),
            final(self).n() == old(self).n() + 1,
            i == old(self).n(),
            old(self).prefix_unchanged(*final(self), old(self).n()),
            final(self).val(i as int) == value,
            final(self).kids(i as int) == seq![lhs, rhs],
            final(self).op_of(i as int) == Op::Div,
            final(self).grad(i as int) == ZERO_BITS,
            !final(self).vis(i as int),
    {
        self.binary(Op::Div, lhs, rhs, value)
    }

    /// Append a hyperbolic-tangent node over `input`.
    pub fn tanh(&mut self, input: usize, value: u64) -> (i: usize)
        requires
            old(self).wf(),
            input < old(self).n(),
        ensures
            final(self).wf(),
            final(self).n() == old(self).n() + 1,
            i == old(self).n(),
            old(self).prefix_unchanged(*final(self), old(self).n()),
            final(self).val(i as int) == value,
            final(self).kids(i as int) == seq![input],
            final(self).op_of(i as int) == Op::Tanh,
            final(self).grad(i as int) == ZERO_BITS,
            !final(self).vis(i as int),
    {
        self.unary(Op::Tanh, input, value)
    }

    /// Append an exponential node over `input`.
    pub fn exp(&mut self, input: usize, value: u64) -> (i: usize)
        requires
            old(self).wf(),
            input < old(self).n(),
        ensures
            final(self).wf(),
            final(self).n() == old(self).n() + 1,
            i == old(self).n(),
            old(self).prefix_unchanged(*final(self), old(self).n()),
            final(self).val(i as int) == value,
            final(self).kids(i as int) == seq![input],
            final(self).op_of(i as int) == Op::Exp,
            final(self).grad(i as int) == ZERO_BITS,
            !final(self).vis(i as int),
    {
        self.unary(Op::Exp, input, value)
    }

    /// Append a negation node over `input`.
    pub fn neg(&mut self, input: usize, value: u64) -> (i: usize)
        requires
            old(self).wf(),
            input < old(self).n(),
        ensures
            final(self).wf(),
            final(self).n() == old(self).n() + 1,
            i == old(self).n(),
            old(self).prefix_unchanged(*final(self), old(self).n()),
            final(self).val(i as int) == value,
            final(self).kids(i as int) == seq![input],
            final(self).op_of(i as int) == Op::Neg,
            final(self).grad(i as int) == ZERO_BITS,
            !final(self).vis(i as int),
    {
        self.unary(Op::Neg, input, value)
    }

    /// Append a power node over `input`. The exponent is not recorded in the
    /// node; the backward rule recovers it from the payloads.
    pub fn pow(&mut self, input: usize, value: u64) -> (i: usize)
        requires
            old(self).wf(),
            input < old(self).n(),
        ensures
            final(self).wf(),
            final(self).n() == old(self).n() + 1,
            i == old(self).n(),
            old(self).prefix_unchanged(*final(self), old(self).n()),
            final(self).val(i as int) == value,
            final(self).kids(i as int) == seq![input],
            final(self).op_of(i as int) == Op::Pow,
            final(self).grad(i as int) == ZERO_BITS,
            !final(self).vis(i as int),
    {
        self.unary(Op::Pow, input, value)
    }

    /// Append one leaf per payload in `values`, in order, and return their
    /// indices.
    pub fn leaves(&mut self, values: &[u64]) -> (ids: Vec<usize>)
        requires
            old(self).wf(),
        ensures
            final(self).wf(),
            final(self).n() == old(self).n() + values@.len(),
            old(self).prefix_unchanged(*final(self), old(self).n()),
            ids@.len() == values@.len(),
            forall|m: int|
                0 <= m < values@.len() ==> (#[trigger] ids@[m]) == old(self).n() + m,
            forall|m: int|
                0 <= m < values@.len() ==> final(self).val((#[trigger] ids@[m]) as int)
                    == values@[m],
            forall|m: int|
                0 <= m < values@.len() ==> final(self).kids((#[trigger] ids@[m]) as int)
                    == Seq::<usize>::empty(),
            forall|m: int|
                0 <= m < values@.len() ==> final(self).op_of((#[trigger] ids@[m]) as int)
                    == Op::Leaf,
            forall|m: int|
                0 <= m < values@.len() ==> final(self).grad((#[trigger] ids@[m]) as int)
                    == ZERO_BITS,
            forall|m: int|
                0 <= m < values@.len() ==> !final(self).vis((#[trigger] ids@[m]) as int),
    {
        let mut ids: Vec<usize> = Vec::new();
        let mut k: usize = 0;
        while k < values.len()
            invariant
                self.wf(),
                k <= values@.len(),
                self.n() == old(self).n() + k,
                old(self).prefix_unchanged(*self, old(self).n()),
                ids@.len() == k as int,
                forall|m: int| 0 <= m < k ==> (#[trigger] ids@[m]) == old(self).n() + m,
                forall|m: int|
                    0 <= m < k ==> self.val((#[trigger] ids@[m]) as int) == values@[m],
                forall|m: int|
                    0 <= m < k ==> self.kids((#[trigger] ids@[m]) as int)
                        == Seq::<usize>::empty(),
                forall|m: int|
                    0 <= m < k ==> self.op_of((#[trigger] ids@[m]) as int) == Op::Leaf,
                forall|m: int|
                    0 <= m < k ==> self.grad((#[trigger] ids@[m]) as int) == ZERO_BITS,
                forall|m: int| 0 <= m < k ==> !self.vis((#[trigger] ids@[m]) as int),
            decreases values@.len() - k,
        {
            let ghost prev = *self;
            let ghost prev_ids = ids@;
            let id = self.leaf(values[k]);
            ids.push(id);
            k += 1;
            proof {
                assert forall|m: int| #![trigger ids@[m]] 0 <= m < k - 1 implies prev.node_at(
                    ids@[m] as int,
                ) == self.node_at(ids@[m] as int) && ids@[m] == prev_ids[m] by {
                    assert(ids@[m] == prev_ids[m]);
                    assert(prev_ids[m] < prev.n());
                }
            }
        }
        ids
    }

    /// The payload of node `i`.
    pub fn value(&self, i: usize) -> (r: u64)
        requires
            i < self.n(),
        ensures
            r == self.val(i as int),
    {
        self.nodes[i].value
    }

    /// The gradient payload of node `i`.
    pub fn gradient(&self, i: usize) -> (r: u64)
        requires
            i < self.n(),
        ensures
            r == self.grad(i as int),
    {
        self.nodes[i].gradient
    }

    /// The operator tag of node `i`.
    pub fn op(&self, i: usize) -> (r: Op)
        requires
            i < self.n(),
        ensures
            r == self.op_of(i as int),
    {
        self.nodes[i].op
    }

    /// The traversal mark of node `i`.
    pub fn visited(&self, i: usize) -> (r: bool)
        requires
            i < self.n(),
        ensures
            r == self.vis(i as int),
    {
        self.nodes[i].visited
    }

    /// How many inputs node `i` has.
    pub fn num_children(&self, i: usize) -> (r: usize)
        requires
            i < self.n(),
        ensures
            r == self.kids(i as int).len(),
    {
        self.nodes[i].children.len()
    }

    /// The `k`-th input of node `i`. Well-formedness bounds it by `i`.
    pub fn child(&self, i: usize, k: usize) -> (c: usize)
        requires
            self.wf(),
            i < self.n(),
            k < self.kids(i as int).len(),
        ensures
            c == self.kids(i as int)[k as int],
            c < i,
    {
        proof {
            assert(self.kids(i as int)[k as int] < i);
        }
        self.nodes[i].children[k]
    }

    /// Set the traversal mark of node `i`; nothing else changes.
    pub(crate) fn mark_visited(&mut self, i: usize)
        requires
            i < old(self).n(),
        ensures
            final(self).n() == old(self).n(),
            forall|j: int|
                0 <= j < old(self).n() && j != i ==> (#[trigger] final(self).node_at(j))
                    == old(self).node_at(j),
            final(self).vis(i as int),
            final(self).val(i as int) == old(self).val(i as int),
            final(self).grad(i as int) == old(self).grad(i as int),
            final(self).op_of(i as int) == old(self).op_of(i as int),
            final(self).kids(i as int) == old(self).kids(i as int),
            final(self).id_of(i as int) == old(self).id_of(i as int),
    {
        let node = &mut self.nodes[i];
        node.visited = true;
    }

    /// Clear the traversal mark and zero the gradient of node `i`; nothing
    /// else changes.
    pub(crate) fn reset_node(&mut self, i: usize)
        requires
            i < old(self).n(),
        ensures
            final(self).n() == old(self).n(),
            forall|j: int|
                0 <= j < old(self).n() && j != i ==> (#[trigger] final(self).node_at(j))
                    == old(self).node_at(j),
            !final(self).vis(i as int),
            final(self).grad(i as int) == ZERO_BITS,
            final(self).val(i as int) == old(self).val(i as int),
            final(self).op_of(i as int) == old(self).op_of(i as int),
            final(self).kids(i as int) == old(self).kids(i as int),
            final(self).id_of(i as int) == old(self).id_of(i as int),
    {
        let node = &mut self.nodes[i];
        node.visited = false;
        node.gradient = ZERO_BITS;
    }

    /// Overwrite the gradient payload of node `i`; nothing else changes.
    pub(crate) fn set_gradient(&mut self, i: usize, g: u64)
        requires
            i < old(self).n(),
        ensures
            final(self).n() == old(self).n(),
            forall|j: int|
                0 <= j < old(self).n() && j != i ==> (#[trigger] final(self).node_at(j))
                    == old(self).node_at(j),
            final(self).grad(i as int) == g,
            final(self).vis(i as int) == old(self).vis(i as int),
            final(self).val(i as int) == old(self).val(i as int),
            final(self).op_of(i as int) == old(self).op_of(i as int),
            final(self).kids(i as int) == old(self).kids(i as int),
            final(self).id_of(i as int) == old(self).id_of(i as int),
    {
        let node = &mut self.nodes[i];
        node.gradient = g;
    }

    /// The input indices of node `i`, as a fresh vector.
    pub fn children(&self, i: usize) -> (r: Vec<usize>)
        requires
            i < self.n(),
        ensures
            r@ == self.kids(i as int),
    {
        let num = self.nodes[i].children.len();
        let mut r: Vec<usize> = Vec::new();
        let mut k: usize = 0;
        while k < num
            invariant
                i < self.n(),
                num == self.kids(i as int).len(),
                k <= num,
                r@.len() == k as int,
                forall|m: int| 0 <= m < k ==> (#[trigger] r@[m]) == self.kids(i as int)[m],
            decreases num - k,
        {
            let c = self.nodes[i].children[k];
            r.push(c);
            k += 1;
        }
        proof {
            assert(r@ =~= self.kids(i as int));
        }
        r
    }

    /// The creation-order id of node `i`, which equals its index.
    pub fn id(&self, i: usize) -> (r: usize)
        requires
            self.wf(),
            i < self.n(),
        ensures
            r == self.id_of(i as int),
            r == i,
    {
        proof {
            assert(self.id_of(i as int) == i as int);
        }
        self.nodes[i].id
    }
}

/// A graph never holds more nodes than a `usize` can count.
pub proof fn lemma_node_count_bounded(g: Graph)
    ensures
        g.n() <= usize::MAX,
{
    assert(vstd::std_specs::vec::spec_vec_len(&g.nodes) == g.nodes@.len());
}

/// Having the same structure is symmetric.
pub proof fn lemma_same_structure_sym(a: Graph, b: Graph)
    requires
        a.same_structure(b),
    ensures
        b.same_structure(a),
{
    assert forall|i: int| 0 <= i < b.n() implies (#[trigger] a.kids(i)) == b.kids(i) by {
        assert(b.kids(i) == a.kids(i));
    }
    assert forall|i: int| 0 <= i < b.n() implies (#[trigger] a.op_of(i)) == b.op_of(i) by {
        assert(b.op_of(i) == a.op_of(i));
    }
    assert forall|i: int| 0 <= i < b.n() implies (#[trigger] a.val(i)) == b.val(i) by {
        assert(b.val(i) == a.val(i));
    }
    assert forall|i: int| 0 <= i < b.n() implies (#[trigger] a.id_of(i)) == b.id_of(i) by {
        assert(b.id_of(i) == a.id_of(i));
    }
}

/// Having the same structure is transitive.
pub proof fn lemma_same_structure_trans(a: Graph, b: Graph, c: Graph)
    requires
        a.same_structure(b),
        b.same_structure(c),
    ensures
        a.same_structure(c),
{
    assert forall|i: int| 0 <= i < a.n() implies (#[trigger] c.kids(i)) == a.kids(i) by {
        assert(c.kids(i) == b.kids(i));
    }
    assert forall|i: int| 0 <= i < a.n() implies (#[trigger] c.op_of(i)) == a.op_of(i) by {
        assert(c.op_of(i) == b.op_of(i));
    }
    assert forall|i: int| 0 <= i < a.n() implies (#[trigger] c.val(i)) == a.val(i) by {
        assert(c.val(i) == b.val(i));
    }
    assert forall|i: int| 0 <= i < a.n() implies (#[trigger] c.id_of(i)) == a.id_of(i) by {
        assert(c.id_of(i) == b.id_of(i));
    }
}

/// A change that rewrites at most one node's gradient and traversal mark
/// keeps the structure, and keeps well-formedness.
pub proof fn lemma_structure_after_node_edit(a: Graph, b: Graph, i: int)
    requires
        a.n() == b.n(),
        0 <= i < a.n(),
        forall|j: int| 0 <= j < a.n() && j != i ==> (#[trigger] b.node_at(j)) == a.node_at(j),
        b.val(i) == a.val(i),
        b.op_of(i) == a.op_of(i),
        b.kids(i) == a.kids(i),
        b.id_of(i) == a.id_of(i),
    ensures
        a.same_structure(b),
        a.wf() ==> b.wf(),
{
    assert forall|m: int| 0 <= m < a.n() implies (#[trigger] b.kids(m)) == a.kids(m) by {
        if m != i {
            assert(b.node_at(m) == a.node_at(m));
        }
    }
    assert forall|m: int| 0 <= m < a.n() implies (#[trigger] b.op_of(m)) == a.op_of(m) by {
        if m != i {
            assert(b.node_at(m) == a.node_at(m));
        }
    }
    assert forall|m: int| 0 <= m < a.n() implies (#[trigger] b.val(m)) == a.val(m) by {
        if m != i {
            assert(b.node_at(m) == a.node_at(m));
        }
    }
    assert forall|m: int| 0 <= m < a.n() implies (#[trigger] b.id_of(m)) == a.id_of(m) by {
        if m != i {
            assert(b.node_at(m) == a.node_at(m));
        }
    }
    if a.wf() {
        assert forall|m: int, k: int|
            0 <= m < b.n() && 0 <= k < b.kids(m).len() implies (#[trigger] b.kids(m)[k]) < m by {
            assert(b.kids(m) == a.kids(m));
            assert(a.kids(m)[k] < m);
        }
        assert forall|m: int| 0 <= m < b.n() implies (#[trigger] b.id_of(m)) == m by {
            assert(b.id_of(m) == a.id_of(m));
        }
    }
}

/// Reachability depends only on the edges, so it carries over between graphs
/// with the same structure.
pub proof fn lemma_reaches_congruence_one(a: Graph, b: Graph, i: int, j: int)
    requires
        a.n() == b.n(),
        forall|m: int| 0 <= m < a.n() ==> (#[trigger] a.kids(m)) == b.kids(m),
        a.reaches(i, j),
    ensures
        b.reaches(i, j),
    decreases i,
{
    if j != i {
        let k = choose|k: int|
            0 <= k < a.kids(i).len() && (#[trigger] a.kids(i)[k]) < i
                && a.reaches(a.kids(i)[k] as int, j);
        lemma_reaches_congruence_one(a, b, a.kids(i)[k] as int, j);
        assert(0 <= k < b.kids(i).len() && (b.kids(i)[k]) < i
            && b.reaches(b.kids(i)[k] as int, j));
    }
}

/// Both directions of the congruence above.
pub proof fn lemma_reaches_congruence(a: Graph, b: Graph, i: int, j: int)
    requires
        a.n() == b.n(),
        forall|m: int| 0 <= m < a.n() ==> (#[trigger] a.kids(m)) == b.kids(m),
    ensures
        a.reaches(i, j) == b.reaches(i, j),
{
    assert(forall|m: int| 0 <= m < b.n() ==> (#[trigger] b.kids(m)) == a.kids(m));
    if a.reaches(i, j) {
        lemma_reaches_congruence_one(a, b, i, j);
    }
    if b.reaches(i, j) {
        lemma_reaches_congruence_one(b, a, i, j);
    }
}

/// In a well-formed graph a reachable node never has a larger index than the
/// node it is reached from.
pub proof fn lemma_reaches_bounds(g: Graph, i: int, j: int)
    requires
        g.wf(),
        g.reaches(i, j),
        0 <= i,
    ensures
        0 <= j <= i,
    decreases i,
{
    if j != i {
        let k = choose|k: int|
            0 <= k < g.kids(i).len() && (#[trigger] g.kids(i)[k]) < i
                && g.reaches(g.kids(i)[k] as int, j);
        lemma_reaches_bounds(g, g.kids(i)[k] as int, j);
    }
}

/// Every input of a node is reachable from it.
pub proof fn lemma_kid_reachable(g: Graph, i: int, k: int)
    requires
        g.wf(),
        0 <= i < g.n(),
        0 <= k < g.kids(i).len(),
    ensures
        g.reaches(i, g.kids(i)[k] as int),
{
    assert(g.reaches(g.kids(i)[k] as int, g.kids(i)[k] as int));
}

/// A node without inputs reaches nothing but itself. A node built to hold a
/// computed number, with no record of the values that produced it, therefore
/// severs every path: no backward pass can propagate a gradient through it.
pub proof fn lemma_leaf_reaches_only_itself(g: Graph, i: int, j: int)
    ensures
        g.kids(i).len() == 0 ==> (g.reaches(i, j) <==> j == i),
{
    if g.kids(i).len() == 0 && g.reaches(i, j) && j != i {
        let k = choose|k: int|
            0 <= k < g.kids(i).len() && (#[trigger] g.kids(i)[k]) < i
                && g.reaches(g.kids(i)[k] as int, j);
    }
}

/// Reachability is transitive.
pub proof fn lemma_reaches_trans(g: Graph, i: int, j: int, l: int)
    requires
        g.reaches(i, j),
        g.reaches(j, l),
    ensures
        g.reaches(i, l),
    decreases i,
{
    if j != i {
        let k = choose|k: int|
            0 <= k < g.kids(i).len() && (#[trigger] g.kids(i)[k]) < i
                && g.reaches(g.kids(i)[k] as int, j);
        lemma_reaches_trans(g, g.kids(i)[k] as int, j, l);
    }
}

} // verus!
