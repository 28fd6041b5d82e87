//! The nodes of the index: points, their links on each layer, and their vectors in one storage.

use vstd::prelude::*;
use crate::ieee::Real;
use crate::kernels::{distance_between, gives_distance, Kernels};
use crate::point::{Point, PointV};

verus! {

/// A point in the index, where its vector starts in the storage, and whom it is linked to on
/// each layer.
struct HnswNode {
    point: Point,
    start: usize,
    layers: Vec<Vec<usize>>,
}

/// A point in the index and whom it is linked to on each layer.
#[verifier::ext_equal]
pub struct HnswNodeV {
    pub point: PointV,
    pub layers: Seq<Seq<usize>>,
}

/// The links of a node on a layer; a node has none on a layer above its own.
pub open spec fn links(nodes: Seq<HnswNodeV>, i: int, layer: int) -> Seq<usize> {
    if layer < nodes[i].layers.len() {
        nodes[i].layers[layer]
    } else {
        Seq::empty()
    }
}

/// The links of a node, layer by layer.
pub open spec fn layers_view(layers: Seq<Vec<usize>>) -> Seq<Seq<usize>> {
    Seq::new(layers.len(), |i: int| layers[i]@)
}

impl HnswNode {
    spec fn view(&self) -> HnswNodeV {
        HnswNodeV { point: self.point@, layers: layers_view(self.layers@) }
    }
}

spec fn nodes_view(nodes: Seq<HnswNode>) -> Seq<HnswNodeV> {
    Seq::new(nodes.len(), |i: int| nodes[i].view())
}

/// The linked points and the storage of their vectors.
pub struct HnswGraph {
    nodes: Vec<HnswNode>,
    /// Contiguous storage for all vectors, in the order of the nodes
    vectors: Vec<Real>,
}

impl View for HnswGraph {
    type V = Seq<HnswNodeV>;

    closed spec fn view(&self) -> Seq<HnswNodeV> {
        nodes_view(self.nodes@)
    }
}

/// The vectors of the nodes, one after the other.
pub open spec fn laid_out(nodes: Seq<HnswNodeV>) -> Seq<Real>
    decreases nodes.len(),
{
    if nodes.len() == 0 {
        Seq::empty()
    } else {
        laid_out(nodes.drop_last()) + nodes.last().point.vector
    }
}

/// Where the vector of node `i` starts among the vectors of the nodes.
pub open spec fn starts_at(nodes: Seq<HnswNodeV>, i: int) -> int {
    laid_out(nodes.take(i)).len() as int
}

proof fn lemma_laid_out_concat(a: Seq<HnswNodeV>, b: Seq<HnswNodeV>)
    ensures
        laid_out(a + b) == laid_out(a) + laid_out(b),
    decreases b.len(),
{
    if b.len() == 0 {
        assert(a + b =~= a);
        assert(laid_out(a) + laid_out(b) =~= laid_out(a));
    } else {
        assert((a + b).drop_last() =~= a + b.drop_last());
        lemma_laid_out_concat(a, b.drop_last());
        assert(laid_out(a + b) =~= laid_out(a) + laid_out(b));
    }
}

/// The vector of node `i` stands where it starts.
proof fn lemma_laid_out_at(nodes: Seq<HnswNodeV>, i: int)
    requires
        0 <= i < nodes.len(),
    ensures
        starts_at(nodes, i) + nodes[i].point.vector.len() == starts_at(nodes, i + 1),
        starts_at(nodes, i + 1) <= laid_out(nodes).len(),
        laid_out(nodes).subrange(starts_at(nodes, i), starts_at(nodes, i + 1)) == nodes[i].point.vector,
{
    let head = nodes.take(i + 1);
    let tail = nodes.skip(i + 1);
    assert(head + tail =~= nodes);
    lemma_laid_out_concat(head, tail);
    assert(head.drop_last() =~= nodes.take(i));
    assert(laid_out(nodes).subrange(starts_at(nodes, i), starts_at(nodes, i + 1)) =~= nodes[i].point.vector);
}

/// Where vectors start depends on the vectors alone.
proof fn lemma_laid_out_same(a: Seq<HnswNodeV>, b: Seq<HnswNodeV>)
    requires
        a.len() == b.len(),
        forall|i: int| 0 <= i < a.len() ==> (#[trigger] a[i]).point.vector == b[i].point.vector,
    ensures
        laid_out(a) == laid_out(b),
        forall|i: int| 0 <= i <= a.len() ==> #[trigger] starts_at(a, i) == starts_at(b, i),
    decreases a.len(),
{
    if a.len() > 0 {
        lemma_laid_out_same(a.drop_last(), b.drop_last());
    }
    assert forall|i: int| 0 <= i <= a.len() implies #[trigger] starts_at(a, i) == starts_at(b, i) by {
        if i == a.len() {
            assert(a.take(i) =~= a);
            assert(b.take(i) =~= b);
        } else {
            assert(a.take(i) =~= a.drop_last().take(i));
            assert(b.take(i) =~= b.drop_last().take(i));
            assert(starts_at(a.drop_last(), i) == starts_at(b.drop_last(), i));
        }
    }
}

/// Without node `at` the vectors before it stay where they were, and those behind move up.
proof fn lemma_laid_out_remove(nodes: Seq<HnswNodeV>, at: int)
    requires
        0 <= at < nodes.len(),
    ensures
        laid_out(nodes.remove(at)) == laid_out(nodes).take(starts_at(nodes, at)) + laid_out(nodes).skip(
            starts_at(nodes, at + 1),
        ),
        forall|i: int| 0 <= i < at ==> #[trigger] starts_at(nodes.remove(at), i) == starts_at(nodes, i),
        forall|i: int|
            at <= i < nodes.len() - 1 ==> #[trigger] starts_at(nodes.remove(at), i) == starts_at(nodes, i + 1)
                - nodes[at].point.vector.len(),
{
    let after = nodes.remove(at);
    let head = nodes.take(at);
    let here = seq![nodes[at]];
    let rest = nodes.skip(at + 1);
    assert(nodes =~= (head + here) + rest);
    assert(nodes.take(at + 1) =~= head + here);
    assert(after =~= head + rest);
    lemma_laid_out_concat(head + here, rest);
    lemma_laid_out_concat(head, here);
    lemma_laid_out_concat(head, rest);
    assert(here.drop_last() =~= Seq::<HnswNodeV>::empty());
    assert(laid_out(here.drop_last()) =~= Seq::<Real>::empty());
    assert(laid_out(here) =~= nodes[at].point.vector);
    assert(laid_out(nodes).take(starts_at(nodes, at)) =~= laid_out(head));
    assert(laid_out(nodes).skip(starts_at(nodes, at + 1)) =~= laid_out(rest));
    assert forall|i: int| at <= i < nodes.len() - 1 implies #[trigger] starts_at(after, i) == starts_at(
        nodes,
        i + 1,
    ) - nodes[at].point.vector.len() by {
        let mid = nodes.subrange(at + 1, i + 1);
        assert(nodes.take(i + 1) =~= (head + here) + mid);
        assert(after.take(i) =~= head + mid);
        lemma_laid_out_concat(head + here, mid);
        lemma_laid_out_concat(head, mid);
    }
    assert forall|i: int| 0 <= i < at implies #[trigger] starts_at(after, i) == starts_at(nodes, i) by {
        assert(after.take(i) =~= nodes.take(i));
    }
}

/// With vectors of one length the storage is a table: `nodes.len()` rows of `dim` numbers.
pub proof fn law_layout_is_a_table(nodes: Seq<HnswNodeV>, dim: nat)
    requires
        forall|i: int| 0 <= i < nodes.len() ==> (#[trigger] nodes[i]).point.vector.len() == dim,
    ensures
        laid_out(nodes).len() == dim * nodes.len(),
        forall|i: int| 0 <= i <= nodes.len() ==> #[trigger] starts_at(nodes, i) == dim * i,
    decreases nodes.len(),
{
    if nodes.len() > 0 {
        let init = nodes.drop_last();
        law_layout_is_a_table(init, dim);
        assert(nodes.last().point.vector.len() == dim);
        assert(dim * (nodes.len() - 1) + dim == dim * nodes.len()) by (nonlinear_arith);
    } else {
        assert(dim * nodes.len() == 0) by (nonlinear_arith)
            requires
                nodes.len() == 0,
        ;
    }
    assert forall|i: int| 0 <= i <= nodes.len() implies #[trigger] starts_at(nodes, i) == dim * i by {
        if i == nodes.len() {
            assert(nodes.take(i) =~= nodes);
        } else {
            assert(nodes.take(i) =~= nodes.drop_last().take(i));
            assert(starts_at(nodes.drop_last(), i) == dim * i);
        }
    }
}

impl HnswGraph {
    pub closed spec fn wf(&self) -> bool {
        &&& self.vectors@ == laid_out(self@)
        &&& forall|i: int| 0 <= i < self.nodes@.len() ==> (#[trigger] self.nodes@[i]).start == starts_at(self@, i)
    }

    pub(crate) fn new() -> (r: HnswGraph)
        ensures
            r.wf(),
            r@ == Seq::<HnswNodeV>::empty(),
    {
        let r = HnswGraph { nodes: Vec::new(), vectors: Vec::new() };
        assert(r@ =~= Seq::<HnswNodeV>::empty());
        r
    }

    pub(crate) fn len(&self) -> (r: usize)
        ensures
            r == self@.len(),
    {
        self.nodes.len()
    }

    pub(crate) fn point<'a>(&'a self, node_idx: usize) -> (r: &'a Point)
        requires
            node_idx < self@.len(),
        ensures
            r@ == self@[node_idx as int].point,
    {
        &self.nodes[node_idx].point
    }

    /// How many layers a node has.
    pub(crate) fn layer_count(&self, node_idx: usize) -> (r: usize)
        requires
            node_idx < self@.len(),
        ensures
            r == self@[node_idx as int].layers.len(),
    {
        self.nodes[node_idx].layers.len()
    }

    /// Adds a node behind the others.
    pub(crate) fn push(&mut self, point: Point, layers: Vec<Vec<usize>>)
        requires
            old(self).wf(),
        ensures
            final(self).wf(),
            final(self)@ == old(self)@.push(HnswNodeV { point: point@, layers: layers_view(layers@) }),
    {
        let start: usize = self.vectors.len();
        let ghost vectors = self.vectors@;
        let ghost before = self@;
        self.vectors.extend_from_slice(point.vector.as_slice());
        assert(self.vectors@ =~= vectors + point@.vector);
        let node = HnswNode { point, start, layers };
        self.nodes.push(node);
        proof {
            let after = self@;
            assert(after =~= before.push(node.view()));
            assert(after.drop_last() =~= before);
            assert forall|i: int| 0 <= i < self.nodes@.len() implies (#[trigger] self.nodes@[i]).start == starts_at(
                after,
                i,
            ) by {
                assert(after.take(i) =~= before.take(i));
                if i == before.len() {
                    assert(before.take(i) =~= before);
                }
            }
        }
    }

    /// Replaces the links of a node on one of its layers.
    pub(crate) fn set_links(&mut self, node_idx: usize, layer: usize, new_links: Vec<usize>)
        requires
            old(self).wf(),
            node_idx < old(self)@.len(),
            layer < old(self)@[node_idx as int].layers.len(),
        ensures
            final(self).wf(),
            final(self)@ == old(self)@.update(
                node_idx as int,
                (HnswNodeV {
                    layers: old(self)@[node_idx as int].layers.update(layer as int, new_links@),
                    ..old(self)@[node_idx as int]
                }),
            ),
    {
        let ghost before = self@;
        let ghost layers0 = self.nodes@[node_idx as int].layers@;
        self.nodes[node_idx].layers[layer] = new_links;
        proof {
            let after = self@;
            assert(layers_view(self.nodes@[node_idx as int].layers@) =~= layers_view(layers0).update(
                layer as int,
                new_links@,
            ));
            assert(after =~= before.update(
                node_idx as int,
                (HnswNodeV {
                    layers: before[node_idx as int].layers.update(layer as int, new_links@),
                    ..before[node_idx as int]
                }),
            ));
            lemma_laid_out_same(before, after);
        }
    }

    /// Takes a node out; those behind it move up.
    pub(crate) fn remove(&mut self, node_idx: usize)
        requires
            old(self).wf(),
            node_idx < old(self)@.len(),
        ensures
            final(self).wf(),
            final(self)@ == old(self)@.remove(node_idx as int),
    {
        let ghost before = self@;
        let ghost all = self.vectors@;
        let ghost at = node_idx as int;
        let total: usize = self.vectors.len();
        proof {
            lemma_laid_out_at(before, at);
        }
        let start: usize = self.nodes[node_idx].start;
        let width: usize = self.nodes[node_idx].point.vector.dim();
        let mut tail = self.vectors.split_off(start + width);
        self.vectors.truncate(start);
        self.vectors.append(&mut tail);
        self.nodes.remove(node_idx);
        let ghost after = before.remove(at);
        proof {
            lemma_laid_out_remove(before, at);
            assert(self.vectors@ =~= laid_out(after));
            assert(self@ =~= after);
        }
        let n: usize = self.nodes.len();
        let ghost was: Seq<int> = Seq::new(n as nat, |j: int| starts_at(before, j + 1));
        let ghost goal: Seq<int> = Seq::new(n as nat, |j: int| starts_at(after, j));
        proof {
            assert forall|j: int| at <= j < n implies #[trigger] goal[j] == was[j] - width by {
                assert(starts_at(after, j) == starts_at(before, j + 1) - width);
            }
            assert forall|j: int| 0 <= j < at implies (#[trigger] self.nodes@[j]).start == goal[j] by {
                assert(starts_at(after, j) == starts_at(before, j));
            }
        }
        self.shift_starts(node_idx, width, Ghost(was), Ghost(goal));
        proof {
            assert(self@ == after);
        }
    }

    /// Moves the starts of the nodes from `from` on down by `width`.
    fn shift_starts(&mut self, from: usize, width: usize, Ghost(was): Ghost<Seq<int>>, Ghost(goal): Ghost<Seq<int>>)
        requires
            from <= old(self).nodes@.len(),
            was.len() == old(self).nodes@.len(),
            goal.len() == old(self).nodes@.len(),
            forall|j: int| 0 <= j < from ==> (#[trigger] old(self).nodes@[j]).start == goal[j],
            forall|j: int| from <= j < goal.len() ==> (#[trigger] old(self).nodes@[j]).start == was[j],
            forall|j: int| from <= j < goal.len() ==> #[trigger] goal[j] == was[j] - width,
            forall|j: int| from <= j < goal.len() ==> #[trigger] goal[j] >= 0,
        ensures
            final(self)@ == old(self)@,
            final(self).vectors == old(self).vectors,
            final(self).nodes@.len() == goal.len(),
            forall|j: int| 0 <= j < goal.len() ==> (#[trigger] final(self).nodes@[j]).start == goal[j],
    {
        let n: usize = self.nodes.len();
        let mut i: usize = from;
        let ghost nodes0 = self.nodes@;
        while i < n
            invariant
                from <= i <= n,
                n == self.nodes@.len(),
                n == nodes0.len(),
                was.len() == n,
                goal.len() == n,
                self.vectors == old(self).vectors,
                forall|j: int| 0 <= j < n ==> (#[trigger] self.nodes@[j]).view() == nodes0[j].view(),
                forall|j: int| 0 <= j < i ==> (#[trigger] self.nodes@[j]).start == goal[j],
                forall|j: int| i <= j < n ==> (#[trigger] self.nodes@[j]).start == was[j],
                forall|j: int| from <= j < n ==> #[trigger] goal[j] == was[j] - width,
                forall|j: int| from <= j < n ==> #[trigger] goal[j] >= 0,
            decreases n - i,
        {
            let ghost here = self.nodes@;
            assert(here[i as int].start == was[i as int]);
            assert(goal[i as int] == was[i as int] - width);
            self.nodes[i].start = self.nodes[i].start - width;
            assert(self.nodes@[i as int].view() == here[i as int].view());
            i += 1;
        }
        assert(nodes_view(self.nodes@) =~= nodes_view(nodes0));
    }

    /// The vector of a node, in the contiguous storage.
    pub(crate) fn get_vector(&self, node_idx: usize) -> (r: &[Real])
        requires
            self.wf(),
            node_idx < self@.len(),
        ensures
            r@ == self@[node_idx as int].point.vector,
    {
        proof {
            lemma_laid_out_at(self@, node_idx as int);
        }
        let vectors = self.vectors.as_slice();
        let total: usize = vectors.len();
        let start: usize = self.nodes[node_idx].start;
        let end: usize = start + self.nodes[node_idx].point.vector.dim();
        vstd::slice::slice_subrange(vectors, start, end)
    }

    /// How far a node is from the query.
    pub(crate) fn distance_to_node<K: Kernels>(&self, k: &K, query: &[Real], node_idx: usize) -> (r: Real)
        requires
            self.wf(),
            node_idx < self@.len(),
        ensures
            gives_distance(k, query@, self@[node_idx as int].point.vector, r),
    {
        distance_between(k, query, self.get_vector(node_idx))
    }

    /// The links of a node on a layer.
    pub(crate) fn neighbors(&self, node_idx: usize, layer: usize) -> (r: Vec<usize>)
        requires
            node_idx < self@.len(),
        ensures
            r@ == links(self@, node_idx as int, layer as int),
    {
        if layer < self.nodes[node_idx].layers.len() {
            let r = self.nodes[node_idx].layers[layer].clone();
            assert(r@ =~= self.nodes@[node_idx as int].layers@[layer as int]@);
            r
        } else {
            Vec::new()
        }
    }
}

} // verus!
