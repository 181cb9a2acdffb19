//! The traversal engine: a dependency-respecting ordering of the nodes
//! reachable from a chosen root.
//!
//! Repeated passes collect, layer by layer, every unvisited node whose inputs
//! have all been visited, so the collected sequence lists each node after all
//! of its inputs; reversing it yields the root-to-leaf order the backward
//! pass consumes.

use vstd::prelude::*;

verus! {

use crate::graph::Graph;
use crate::graph::lemma_kid_reachable;
use crate::graph::lemma_node_count_bounded;
use crate::graph::lemma_reaches_bounds;
use crate::graph::lemma_reaches_congruence;
use crate::graph::lemma_reaches_congruence_one;
use crate::graph::lemma_reaches_trans;

/// `b` keeps `a` as an unchanged prefix.
pub open spec fn extends(a: Seq<usize>, b: Seq<usize>) -> bool {
    a.len() <= b.len() && forall|p: int| 0 <= p < a.len() ==> (#[trigger] b[p]) == a[p]
}

/// How many of the first `m` nodes are unvisited; the traversal's measure of
/// progress.
pub open spec fn count_unvisited(g: Graph, m: int) -> nat
    decreases m,
{
    if m <= 0 {
        0
    } else {
        count_unvisited(g, m - 1) + if g.vis(m - 1) {
            0nat
        } else {
            1nat
        }
    }
}

/// Marking can only shrink the number of unvisited nodes.
proof fn lemma_count_unvisited_mono(a: Graph, b: Graph, m: int)
    requires
        forall|j: int| 0 <= j < m && a.vis(j) ==> #[trigger] b.vis(j),
    ensures
        count_unvisited(b, m) <= count_unvisited(a, m),
    decreases m,
{
    if m > 0 {
        lemma_count_unvisited_mono(a, b, m - 1);
    }
}

/// Marking a node that was unvisited strictly shrinks the count.
proof fn lemma_count_unvisited_strict(a: Graph, b: Graph, m: int, j0: int)
    requires
        forall|j: int| 0 <= j < m && a.vis(j) ==> #[trigger] b.vis(j),
        0 <= j0 < m,
        !a.vis(j0),
        b.vis(j0),
    ensures
        count_unvisited(b, m) < count_unvisited(a, m),
    decreases m,
{
    if j0 == m - 1 {
        lemma_count_unvisited_mono(a, b, m - 1);
    } else {
        lemma_count_unvisited_strict(a, b, m - 1, j0);
    }
}

impl Graph {
    /// `other` differs from `self` at most in traversal marks.
    pub open spec fn same_but_vis(&self, other: Graph) -> bool {
        &&& self.same_structure(other)
        &&& forall|i: int| 0 <= i < self.n() ==> (#[trigger] other.grad(i)) == self.grad(i)
    }

    /// The running state of a traversal from `root`: `out` lists, in
    /// discovery order, exactly the reachable nodes marked visited so far;
    /// each listed node stands after all of its inputs, and no node is listed
    /// twice.
    pub open spec fn gathered(&self, root: int, out: Seq<usize>) -> bool {
        &&& forall|p: int| 0 <= p < out.len() ==> (#[trigger] out[p]) < self.n()
        &&& forall|p: int|
            0 <= p < out.len() ==> self.reaches(root, (#[trigger] out[p]) as int)
        &&& forall|p: int, q: int|
            #![trigger out[p], out[q]]
            0 <= p < q < out.len() ==> out[p] != out[q]
        &&& kids_listed_earlier(*self, out)
        &&& forall|j: int|
            #![trigger self.vis(j)]
            0 <= j < self.n() && self.reaches(root, j) ==> (self.vis(j) <==> out.contains(
                j as usize,
            ))
    }
}

/// Every input of a listed node is itself listed, somewhere earlier.
pub open spec fn kids_listed_earlier(g: Graph, out: Seq<usize>) -> bool {
    forall|p: int, k: int|
        0 <= p < out.len() && 0 <= k < g.kids(out[p] as int).len() ==> exists|q: int|
            0 <= q < p && out[q] == (#[trigger] g.kids(out[p] as int)[k])
}

/// In a sequence whose members include `i` and whose members' inputs are all
/// members, every node reachable from `i` is a member too.
proof fn lemma_gathered_closed(g: Graph, out: Seq<usize>, i: int, j: int)
    requires
        kids_listed_earlier(g, out),
        out.contains(i as usize),
        0 <= i <= usize::MAX,
        g.reaches(i, j),
    ensures
        out.contains(j as usize),
    decreases i,
{
    if j != i {
        let k = choose|k: int|
            0 <= k < g.kids(i).len() && (#[trigger] g.kids(i)[k]) < i && g.reaches(
                g.kids(i)[k] as int,
                j,
            );
        let p = choose|p: int| 0 <= p < out.len() && out[p] == i as usize;
        assert(out[p] as int == i);
        assert(g.kids(out[p] as int).len() == g.kids(i).len());
        let q = choose|q: int| 0 <= q < p && out[q] == g.kids(out[p] as int)[k];
        assert(out.contains(g.kids(i)[k]));
        lemma_gathered_closed(g, out, g.kids(i)[k] as int, j);
    }
}

/// Differing at most in traversal marks is transitive.
proof fn lemma_same_but_vis_trans(a: Graph, b: Graph, c: Graph)
    requires
        a.same_but_vis(b),
        b.same_but_vis(c),
    ensures
        a.same_but_vis(c),
{
    assert forall|i: int| 0 <= i < a.n() implies (#[trigger] c.kids(i)) == a.kids(i) by {
        assert(c.kids(i) == b.kids(i));
    }
    assert forall|i: int| 0 <= i < a.n() implies (#[trigger] c.op_of(i)) == a.op_of(i) by {
        assert(c.op_of(i) == b.op_of(i));
    }
    assert forall|i: int| 0 <= i < a.n() implies (#[trigger] c.val(i)) == a.val(i) by {
        assert(c.val(i) == b.val(i));
    }
    assert forall|i: int| 0 <= i < a.n() implies (#[trigger] c.id_of(i)) == a.id_of(i) by {
        assert(c.id_of(i) == b.id_of(i));
    }
    assert forall|i: int| 0 <= i < a.n() implies (#[trigger] c.grad(i)) == a.grad(i) by {
        assert(c.grad(i) == b.grad(i));
    }
}

/// A change that leaves every node record untouched except one node's
/// traversal mark keeps the two graphs equal but for marks, and keeps
/// well-formedness.
proof fn lemma_same_but_vis_mark(a: Graph, b: Graph, i: int)
    requires
        a.n() == b.n(),
        0 <= i < a.n(),
        forall|j: int| 0 <= j < a.n() && j != i ==> (#[trigger] b.node_at(j)) == a.node_at(j),
        b.val(i) == a.val(i),
        b.grad(i) == a.grad(i),
        b.op_of(i) == a.op_of(i),
        b.kids(i) == a.kids(i),
        b.id_of(i) == a.id_of(i),
    ensures
        a.same_but_vis(b),
        a.wf() ==> b.wf(),
{
    assert forall|m: int| 0 <= m < a.n() implies (#[trigger] b.kids(m)) == a.kids(m) by {
        if m != i {
            assert(b.node_at(m) == a.node_at(m));
        }
    }
    assert forall|m: int| 0 <= m < a.n() implies (#[trigger] b.op_of(m)) == a.op_of(m) by {
        if m != i {
            assert(b.node_at(m) == a.node_at(m));
        }
    }
    assert forall|m: int| 0 <= m < a.n() implies (#[trigger] b.val(m)) == a.val(m) by {
        if m != i {
            assert(b.node_at(m) == a.node_at(m));
        }
    }
    assert forall|m: int| 0 <= m < a.n() implies (#[trigger] b.id_of(m)) == a.id_of(m) by {
        if m != i {
            assert(b.node_at(m) == a.node_at(m));
        }
    }
    assert forall|m: int| 0 <= m < a.n() implies (#[trigger] b.grad(m)) == a.grad(m) by {
        if m != i {
            assert(b.node_at(m) == a.node_at(m));
        }
    }
    if a.wf() {
        assert forall|m: int, k: int|
            0 <= m < b.n() && 0 <= k < b.kids(m).len() implies (#[trigger] b.kids(m)[k])
                < m by {
            assert(b.kids(m) == a.kids(m));
            assert(a.kids(m)[k] < m);
        }
        assert forall|m: int| 0 <= m < b.n() implies (#[trigger] b.id_of(m)) == m by {
            assert(b.id_of(m) == a.id_of(m));
        }
    }
}

/// In a root-first dependency order, a node that consumes another always
/// stands strictly before it: by the time the backward pass reaches a node,
/// every node that lists it as an input has already been processed.
pub proof fn lemma_consumers_come_first(
    g: Graph,
    root: int,
    order: Seq<usize>,
    p: int,
    q: int,
)
    requires
        topo_order(g, root, order),
        0 <= p < order.len(),
        0 <= q < order.len(),
        g.kids(order[p] as int).contains(order[q]),
    ensures
        p < q,
{
}

impl Graph {
    /// One traversal pass from `i`: collect, in leaf-first order, every node
    /// on an all-unvisited path from `i` whose inputs are all already
    /// visited, marking each as it is collected.
    fn find_pass(&mut self, i: usize, out: &mut Vec<usize>, Ghost(root): Ghost<int>)
        requires
            old(self).wf(),
            i < old(self).n(),
            0 <= root < old(self).n(),
            old(self).reaches(root, i as int),
            old(self).gathered(root, old(out)@),
        ensures
            final(self).wf(),
            old(self).same_but_vis(*final(self)),
            final(self).gathered(root, final(out)@),
            extends(old(out)@, final(out)@),
            forall|j: int|
                0 <= j < old(self).n() && old(self).vis(j) ==> #[trigger] final(self).vis(j),
            forall|j: int|
                0 <= j < old(self).n() && !old(self).reaches(root, j) ==> (#[trigger] final(self).vis(j)) == old(self).vis(j),
            forall|p: int|
                old(out)@.len() <= p < final(out)@.len() ==> old(self).reaches(
                    i as int,
                    (#[trigger] final(out)@[p]) as int,
                ),
            !old(self).vis(i as int) ==> final(out)@.len() > old(out)@.len(),
            !old(self).vis(i as int) && final(self).vis(i as int) ==> final(out)@.len() > 0
                && final(out)@[final(out)@.len() - 1] == i,
            old(self).vis(i as int) ==> *final(self) == *old(self) && final(out)@ == old(out)@,
        decreases i as int,
    {
        if !self.visited(i) {
            let num = self.num_children(i);
            let mut count: usize = 0;
            let mut k: usize = 0;
            let ghost g0 = *self;
            let ghost out0 = out@;
            proof {
                assert(g0 == *old(self));
                assert(out0 == old(out)@);
            }
            while k < num
                invariant
                    g0.wf(),
                    self.wf(),
                    i < g0.n(),
                    0 <= root < g0.n(),
                    g0.reaches(root, i as int),
                    num == g0.kids(i as int).len(),
                    k <= num,
                    count <= k,
                    g0.same_but_vis(*self),
                    self.gathered(root, out@),
                    extends(out0, out@),
                    !self.vis(i as int),
                    count == 0 ==> forall|kk: int|
                        0 <= kk < k ==> self.vis((#[trigger] g0.kids(i as int)[kk]) as int),
                    count > 0 ==> out@.len() > out0.len(),
                    forall|j: int| 0 <= j < g0.n() && g0.vis(j) ==> #[trigger] self.vis(j),
                    forall|j: int|
                        0 <= j < g0.n() && !g0.reaches(root, j) ==> (#[trigger] self.vis(j))
                            == g0.vis(j),
                    forall|p: int|
                        out0.len() <= p < out@.len() ==> g0.reaches(
                            i as int,
                            (#[trigger] out@[p]) as int,
                        ),
                decreases num - k,
            {
                proof {
                    assert(self.kids(i as int) == g0.kids(i as int));
                }
                let c = self.child(i, k);
                if !self.visited(c) {
                    let ghost mid = *self;
                    let ghost outm = out@;
                    proof {
                        lemma_kid_reachable(g0, i as int, k as int);
                        lemma_reaches_trans(g0, root, i as int, c as int);
                        lemma_reaches_congruence_one(g0, mid, root, c as int);
                    }
                    self.find_pass(c, out, Ghost(root));
                    count = count + 1;
                    proof {
                        // the structure never changes, so reachability can be
                        // carried between the snapshots
                        assert forall|j: int| 0 <= j < g0.n() && !g0.reaches(root, j) implies (
                        #[trigger] self.vis(j)) == g0.vis(j) by {
                            if mid.reaches(root, j) {
                                lemma_reaches_congruence_one(mid, g0, root, j);
                            }
                        }
                        // nodes collected by the sub-pass lie at or below the
                        // input `c`, so `i` itself is still unvisited
                        assert forall|p: int| out0.len() <= p < out@.len() implies g0.reaches(
                            i as int,
                            (#[trigger] out@[p]) as int,
                        ) by {
                            if p < outm.len() {
                                assert(out@[p] == outm[p]);
                            } else {
                                assert(mid.reaches(c as int, out@[p] as int));
                                lemma_reaches_congruence_one(mid, g0, c as int, out@[p] as int);
                                lemma_kid_reachable(g0, i as int, k as int);
                                lemma_reaches_trans(g0, i as int, c as int, out@[p] as int);
                            }
                        }
                        assert forall|p: int| outm.len() <= p < out@.len() implies out@[p]
                            != i by {
                            assert(mid.reaches(c as int, out@[p] as int));
                            lemma_reaches_bounds(mid, c as int, out@[p] as int);
                            assert(out@[p] <= c < i);
                        }
                        assert(!out@.contains(i)) by {
                            if out@.contains(i) {
                                let p = choose|p: int|
                                    0 <= p < out@.len() && out@[p] == i;
                                if p < outm.len() {
                                    assert(outm[p] == i);
                                    assert(outm.contains(i));
                                    assert(mid.reaches(root, i as int)) by {
                                        lemma_reaches_congruence_one(
                                            g0,
                                            mid,
                                            root,
                                            i as int,
                                        );
                                    }
                                    assert(mid.vis(i as int));
                                }
                            }
                        }
                        assert(!self.vis(i as int)) by {
                            lemma_reaches_congruence_one(g0, *self, root, i as int);
                            assert(self.reaches(root, i as int));
                        }
                    }
                }
                k = k + 1;
            }
            if count == 0 {
                let ghost gpre = *self;
                let ghost outpre = out@;
                self.mark_visited(i);
                out.push(i);
                proof {
                    assert(self.n() == gpre.n());
                    lemma_node_count_bounded(*self);
                    lemma_same_but_vis_mark(gpre, *self, i as int);
                    lemma_same_but_vis_trans(g0, gpre, *self);
                    // the new last entry is `i`; everything before it is as it was
                    assert(out@.len() == outpre.len() + 1);
                    assert(out@[outpre.len() as int] == i);
                    assert(forall|p: int| 0 <= p < outpre.len() ==> (#[trigger] out@[p])
                        == outpre[p]);
                    assert(!outpre.contains(i)) by {
                        assert(gpre.reaches(root, i as int)) by {
                            lemma_reaches_congruence_one(g0, gpre, root, i as int);
                        }
                        assert(!gpre.vis(i as int));
                    }
                    // gathered is re-established with `i` appended
                    assert forall|p: int| 0 <= p < out@.len() implies (#[trigger] out@[p])
                        < self.n() by {
                        if p < outpre.len() {
                            assert(out@[p] == outpre[p]);
                        }
                    }
                    assert forall|p: int| 0 <= p < out@.len() implies self.reaches(
                        root,
                        (#[trigger] out@[p]) as int,
                    ) by {
                        if p < outpre.len() {
                            assert(out@[p] == outpre[p]);
                            assert(gpre.reaches(root, outpre[p] as int));
                        } else {
                            assert(out@[p] == i);
                            assert(gpre.reaches(root, i as int)) by {
                                lemma_reaches_congruence_one(g0, gpre, root, i as int);
                            }
                        }
                        lemma_reaches_congruence_one(gpre, *self, root, out@[p] as int);
                    }
                    assert forall|p: int, q: int|
                        #![trigger out@[p], out@[q]]
                        0 <= p < q < out@.len() implies out@[p] != out@[q] by {
                        if q < outpre.len() {
                        } else {
                            assert(out@[q] == i);
                            assert(out@[p] == outpre[p]);
                            if outpre[p] == i {
                                assert(outpre.contains(i));
                            }
                        }
                    }
                    assert forall|p: int, k2: int|
                        0 <= p < out@.len() && 0 <= k2 < self.kids(out@[p] as int).len() implies
                        exists|q: int|
                            0 <= q < p && out@[q] == (#[trigger] self.kids(out@[p] as int)[k2])
                        by {
                        if p < outpre.len() {
                            assert(out@[p] == outpre[p]);
                            assert(gpre.kids(outpre[p] as int) == self.kids(out@[p] as int));
                            assert(gpre.kids(outpre[p] as int)[k2] == self.kids(
                                out@[p] as int,
                            )[k2]);
                            let q = choose|q: int|
                                0 <= q < p && outpre[q] == gpre.kids(outpre[p] as int)[k2];
                            assert(out@[q] == outpre[q]);
                        } else {
                            // the appended node: all of its inputs are visited,
                            // so each already stands in the prefix
                            assert(out@[p] == i);
                            assert(self.kids(i as int) == g0.kids(i as int));
                            let kid = self.kids(i as int)[k2];
                            assert(gpre.vis(kid as int));
                            assert(gpre.reaches(root, kid as int)) by {
                                lemma_kid_reachable(g0, i as int, k2);
                                lemma_reaches_trans(g0, root, i as int, g0.kids(i as int)[k2] as int);
                                lemma_reaches_congruence_one(g0, gpre, root, kid as int);
                            }
                            assert(outpre.contains(kid));
                            let q = choose|q: int| 0 <= q < outpre.len() && outpre[q] == kid;
                            assert(out@[q] == outpre[q]);
                            assert(q < p);
                        }
                    }
                    assert forall|j: int|
                        #![trigger self.vis(j)]
                        0 <= j < self.n() && self.reaches(root, j) implies (self.vis(j)
                            <==> out@.contains(j as usize)) by {
                        lemma_reaches_congruence_one(*self, gpre, root, j);
                        if j == i {
                            assert(self.vis(j));
                            assert(out@[outpre.len() as int] == i);
                            assert(out@.contains(i));
                        } else {
                            assert(self.vis(j) == gpre.vis(j));
                            if out@.contains(j as usize) {
                                let p = choose|p: int|
                                    0 <= p < out@.len() && out@[p] == j as usize;
                                assert(j as usize as int == j);
                                if p == outpre.len() {
                                    assert(out@[p] == i);
                                }
                                assert(p < outpre.len());
                                assert(outpre[p] == j as usize);
                                assert(outpre.contains(j as usize));
                            }
                            if outpre.contains(j as usize) {
                                let p = choose|p: int|
                                    0 <= p < outpre.len() && outpre[p] == j as usize;
                                assert(out@[p] == j as usize);
                            }
                            assert(j as usize as int == j);
                        }
                    }
                    assert(self.gathered(root, out@));
                    assert forall|j: int| 0 <= j < g0.n() && g0.vis(j) implies #[trigger] self.vis(
                        j,
                    ) by {
                        if j != i {
                            assert(self.node_at(j) == gpre.node_at(j));
                            assert(gpre.vis(j));
                        }
                    }
                    assert forall|j: int|
                        0 <= j < g0.n() && !g0.reaches(root, j) implies (#[trigger] self.vis(j))
                            == g0.vis(j) by {
                        assert(j != i);
                        assert(self.node_at(j) == gpre.node_at(j));
                        assert(gpre.vis(j) == g0.vis(j));
                    }
                }
            } else {
                proof {
                    assert(self.gathered(root, out@));
                    assert(forall|j: int|
                        0 <= j < g0.n() && g0.vis(j) ==> #[trigger] self.vis(j));
                    assert(forall|j: int|
                        0 <= j < g0.n() && !g0.reaches(root, j) ==> (#[trigger] self.vis(j))
                            == g0.vis(j));
                }
            }
        }
    }
}


/// A dependency ordering of everything reachable from `root`, leaves first:
/// no node repeats, every reachable node appears, every node appears
/// strictly after all of its inputs, and the root comes last. This is a
/// valid build order from the leaves toward the root.
pub open spec fn dependency_order(g: Graph, root: int, order: Seq<usize>) -> bool {
    &&& order.len() > 0
    &&& order[order.len() - 1] == root
    &&& forall|p: int| 0 <= p < order.len() ==> (#[trigger] order[p]) < g.n()
    &&& forall|p: int| 0 <= p < order.len() ==> g.reaches(root, (#[trigger] order[p]) as int)
    &&& forall|p: int, q: int|
        #![trigger order[p], order[q]]
        0 <= p < q < order.len() ==> order[p] != order[q]
    &&& forall|j: int|
        #![trigger g.reaches(root, j)]
        0 <= j < g.n() && g.reaches(root, j) ==> order.contains(j as usize)
    &&& forall|p: int, q: int|
        #![trigger g.kids(order[p] as int).contains(order[q])]
        0 <= p < order.len() && 0 <= q < order.len() && g.kids(order[p] as int).contains(
            order[q],
        ) ==> q < p
}

/// The reverse reading of a dependency order, which the backward pass walks:
/// the root comes first, no node repeats, every reachable node appears, and
/// every node appears strictly before each of its inputs.
pub open spec fn topo_order(g: Graph, root: int, order: Seq<usize>) -> bool {
    &&& order.len() > 0
    &&& order[0] == root
    &&& forall|p: int| 0 <= p < order.len() ==> (#[trigger] order[p]) < g.n()
    &&& forall|p: int| 0 <= p < order.len() ==> g.reaches(root, (#[trigger] order[p]) as int)
    &&& forall|p: int, q: int|
        #![trigger order[p], order[q]]
        0 <= p < q < order.len() ==> order[p] != order[q]
    &&& forall|j: int|
        #![trigger g.reaches(root, j)]
        0 <= j < g.n() && g.reaches(root, j) ==> order.contains(j as usize)
    &&& forall|p: int, q: int|
        #![trigger g.kids(order[p] as int).contains(order[q])]
        0 <= p < order.len() && 0 <= q < order.len() && g.kids(order[p] as int).contains(
            order[q],
        ) ==> p < q
}

/// Reversing a leaf-first dependency order yields the root-first reading.
pub proof fn lemma_reversed_topo(g: Graph, root: int, c: Seq<usize>, o: Seq<usize>)
    requires
        dependency_order(g, root, c),
        o.len() == c.len(),
        forall|q: int| 0 <= q < o.len() ==> (#[trigger] o[q]) == c[c.len() - 1 - q],
    ensures
        topo_order(g, root, o),
{
    let m = c.len() as int;
    assert(o[0] == c[m - 1]);
    assert forall|q: int| 0 <= q < o.len() implies (#[trigger] o[q]) < g.n() by {
        assert(o[q] == c[m - 1 - q]);
    }
    assert forall|q: int| 0 <= q < o.len() implies g.reaches(root, (#[trigger] o[q]) as int) by {
        assert(o[q] == c[m - 1 - q]);
    }
    assert forall|p2: int, q2: int|
        #![trigger o[p2], o[q2]]
        0 <= p2 < q2 < o.len() implies o[p2] != o[q2] by {
        assert(o[p2] == c[m - 1 - p2]);
        assert(o[q2] == c[m - 1 - q2]);
        assert(c[m - 1 - q2] != c[m - 1 - p2]);
    }
    assert forall|j: int|
        #![trigger g.reaches(root, j)]
        0 <= j < g.n() && g.reaches(root, j) implies o.contains(j as usize) by {
        assert(c.contains(j as usize));
        let q = choose|q: int| 0 <= q < c.len() && (#[trigger] c[q]) == j as usize;
        assert(o[m - 1 - q] == c[q]);
        assert(o.contains(j as usize));
    }
    assert forall|p2: int, q2: int|
        #![trigger g.kids(o[p2] as int).contains(o[q2])]
        0 <= p2 < o.len() && 0 <= q2 < o.len() && g.kids(o[p2] as int).contains(o[q2])
        implies p2 < q2 by {
        assert(o[p2] == c[m - 1 - p2]);
        assert(o[q2] == c[m - 1 - q2]);
        assert(g.kids(c[(m - 1 - p2) as int] as int).contains(c[(m - 1 - q2) as int]));
        assert(m - 1 - q2 < m - 1 - p2);
    }
}

impl Graph {
    /// Order every node reachable from `root` so that each node appears
    /// strictly after all of its inputs: a valid build order from the leaves
    /// toward the root, with the root last. Reversing it gives the
    /// root-first reading the backward pass walks.
    ///
    /// Every reachable node must be unmarked when the call starts; the
    /// traversal marks each node it consumes and does not reset anything
    /// itself.
    #[verifier::rlimit(60)]
    pub fn topological_sort(&mut self, root: usize) -> (order: Vec<usize>)
        requires
            old(self).wf(),
            root < old(self).n(),
            forall|j: int|
                0 <= j < old(self).n() && old(self).reaches(root as int, j) ==> !(
                #[trigger] old(self).vis(j)),
        ensures
            final(self).wf(),
            old(self).same_but_vis(*final(self)),
            forall|j: int|
                0 <= j < old(self).n() ==> ((#[trigger] final(self).vis(j)) <==> (old(self).vis(j)
                    || old(self).reaches(root as int, j))),
            dependency_order(*final(self), root as int, order@),
    {
        let ghost orig = *self;
        let mut collected: Vec<usize> = Vec::new();
        proof {
            assert(collected@.len() == 0);
            assert forall|j: int|
                #![trigger self.vis(j)]
                0 <= j < self.n() && self.reaches(root as int, j) implies (self.vis(j)
                    <==> collected@.contains(j as usize)) by {
                assert(!self.vis(j));
                assert(!collected@.contains(j as usize));
            }
            assert(self.gathered(root as int, collected@));
        }
        loop
            invariant
                orig.wf(),
                orig == *old(self),
                root < orig.n(),
                forall|j: int|
                    0 <= j < orig.n() && orig.reaches(root as int, j) ==> !(#[trigger] orig.vis(
                        j,
                    )),
                self.wf(),
                orig.same_but_vis(*self),
                self.gathered(root as int, collected@),
                forall|j: int|
                    0 <= j < orig.n() && !orig.reaches(root as int, j) ==> (#[trigger] self.vis(
                        j,
                    )) == orig.vis(j),
                self.vis(root as int) ==> collected@.len() > 0 && collected@[collected@.len()
                    - 1] == root,
            ensures
                orig == *old(self),
                self.wf(),
                orig.same_but_vis(*self),
                self.gathered(root as int, collected@),
                forall|j: int|
                    0 <= j < orig.n() && !orig.reaches(root as int, j) ==> (#[trigger] self.vis(
                        j,
                    )) == orig.vis(j),
                self.vis(root as int),
                collected@.len() > 0,
                collected@[collected@.len() - 1] == root,
            decreases count_unvisited(*self, orig.n()),
        {
            let len_before = collected.len();
            let ghost gb = *self;
            let ghost cb = collected@;
            self.find_pass(root, &mut collected, Ghost(root as int));
            if collected.len() == len_before {
                proof {
                    assert(gb.vis(root as int));
                    assert(self.vis(root as int));
                }
                break;
            }
            proof {
                lemma_same_but_vis_trans(orig, gb, *self);
                assert forall|j: int|
                    0 <= j < orig.n() && !orig.reaches(root as int, j) implies (
                #[trigger] self.vis(j)) == orig.vis(j) by {
                    if gb.reaches(root as int, j) {
                        lemma_reaches_congruence_one(gb, orig, root as int, j);
                    }
                    assert(self.vis(j) == gb.vis(j));
                }
                // progress: the pass collected at least one new node, which
                // was unvisited before and is visited now
                let j0 = collected@[len_before as int];
                assert(collected@.contains(j0)) by {
                    assert(collected@[len_before as int] == j0);
                }
                assert(self.reaches(root as int, j0 as int));
                assert(j0 < self.n());
                assert(!cb.contains(j0)) by {
                    if cb.contains(j0) {
                        let q = choose|q: int| 0 <= q < cb.len() && cb[q] == j0;
                        assert(collected@[q] == cb[q]);
                        assert(collected@[q] == collected@[len_before as int]);
                        assert(q < len_before as int);
                    }
                }
                assert(!gb.vis(j0 as int)) by {
                    lemma_reaches_congruence_one(*self, gb, root as int, j0 as int);
                }
                assert(self.vis(j0 as int));
                lemma_count_unvisited_strict(gb, *self, orig.n(), j0 as int);
            }
        }
        proof {
            assert(collected@.contains(root)) by {
                assert(self.reaches(root as int, root as int));
            }
            assert forall|j: int|
                0 <= j < self.n() && self.reaches(root as int, j) implies collected@.contains(
                j as usize,
            ) by {
                lemma_node_count_bounded(*self);
                lemma_gathered_closed(*self, collected@, root as int, j);
            }
            assert forall|j: int|
                0 <= j < orig.n() implies ((#[trigger] self.vis(j)) <==> (orig.vis(j)
                    || orig.reaches(root as int, j))) by {
                lemma_reaches_congruence(orig, *self, root as int, j);
                if orig.reaches(root as int, j) {
                    assert(collected@.contains(j as usize));
                    assert(self.vis(j));
                } else {
                    assert(self.vis(j) == orig.vis(j));
                }
            }
        }
        proof {
            // each listed node's inputs stand strictly earlier in the list
            let c = collected@;
            assert forall|p: int, q: int|
                #![trigger self.kids(c[p] as int).contains(c[q])]
                0 <= p < c.len() && 0 <= q < c.len() && self.kids(c[p] as int).contains(
                    c[q],
                ) implies q < p by {
                let k = choose|k: int|
                    0 <= k < self.kids(c[p] as int).len() && (#[trigger] self.kids(
                        c[p] as int,
                    )[k]) == c[q];
                let q2 = choose|q2: int|
                    0 <= q2 < p && c[q2] == (#[trigger] self.kids(c[p] as int)[k]);
                assert(c[q2] == c[q]);
                assert(q2 == q);
            }
            assert(dependency_order(*self, root as int, c));
        }
        collected
    }
}

} // verus!
