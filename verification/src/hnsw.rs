//! A hierarchical navigable small world index: points linked to near neighbours on several
//! layers, searched greedily.

use vstd::hash_map::StringHashMap;
use vstd::prelude::*;
use crate::graph::{layers_view, HnswGraph, HnswNodeV};
use crate::ieee::Real;
use crate::kernels::{gives_l2, gives_similarity, similarity, Kernels};
use crate::order::{leads, lemma_take_leads, sort_order};
use crate::point::{Point, PointV, Vector};
use crate::visited::VisitedSet;
use crate::walk::{finds, finds_and_marks, law_found_sorted};

verus! {

/// `rand::random::<bool>`: true or false, each half the time. Nothing is promised of a single
/// outcome.
#[verifier::external_body]
fn coin() -> (r: bool) {
    rand::random::<bool>()
}

/// Whether tosses of a coin lead up to a layer: one layer up for each of them that comes up heads,
/// until one comes up tails or the top layer is reached.
pub open spec fn climbs(tosses: Seq<bool>, max_layers: usize, layer: usize) -> bool {
    &&& layer < max_layers
    &&& tosses.len() == if layer + 1 == max_layers {
        layer as nat
    } else {
        (layer + 1) as nat
    }
    &&& forall|i: int| 0 <= i < tosses.len() ==> #[trigger] tosses[i] == (i < layer)
}

/// Where a toss leads from a layer: one layer up for heads, if there is one; otherwise the climb
/// ends.
pub fn layer_above(layer: usize, max_layers: usize, heads: bool) -> (r: Option<usize>)
    requires
        layer < max_layers,
    ensures
        r == if heads && layer + 1 < max_layers {
            Some((layer + 1) as usize)
        } else {
            None
        },
{
    if heads && layer < max_layers - 1 {
        Some(layer + 1)
    } else {
        None
    }
}

/// How many nodes a search keeps while it looks for the neighbours of a new node.
pub const EF_CONSTRUCTION: usize = 200;

/// An index with fewer nodes is searched on its lowest layer at once.
pub const SMALL_INDEX: usize = 1000;

/// High-performance HNSW index for approximate nearest neighbor search
pub struct HnswIndex {
    graph: HnswGraph,
    point_id_to_index: StringHashMap<usize>,
    max_connections: usize,
    max_layers: usize,
    /// Reusable visited set
    visited: VisitedSet,
}

/// An index as a mathematical object.
#[verifier::ext_equal]
pub struct HnswIndexV {
    pub nodes: Seq<HnswNodeV>,
    pub max_connections: usize,
    pub max_layers: usize,
}

/// The last node that holds a point stored under `key`.
pub open spec fn last_node(nodes: Seq<HnswNodeV>, key: Seq<char>) -> Option<int>
    decreases nodes.len(),
{
    if nodes.len() == 0 {
        None
    } else if nodes.last().point.key() == key {
        Some(nodes.len() - 1)
    } else {
        last_node(nodes.drop_last(), key)
    }
}

proof fn lemma_last_node(nodes: Seq<HnswNodeV>, key: Seq<char>)
    ensures
        match last_node(nodes, key) {
            Some(i) => 0 <= i < nodes.len() && nodes[i].point.key() == key && forall|j: int|
                i < j < nodes.len() ==> (#[trigger] nodes[j]).point.key() != key,
            None => forall|j: int| 0 <= j < nodes.len() ==> (#[trigger] nodes[j]).point.key() != key,
        },
    decreases nodes.len(),
{
    if nodes.len() > 0 && nodes.last().point.key() != key {
        lemma_last_node(nodes.drop_last(), key);
        let from = match last_node(nodes, key) {
            Some(i) => i,
            None => -1,
        };
        assert forall|j: int| from < j < nodes.len() implies (#[trigger] nodes[j]).point.key() != key by {
            if j < nodes.len() - 1 {
                assert(nodes.drop_last()[j] == nodes[j]);
            }
        }
    }
}

proof fn lemma_last_node_same(a: Seq<HnswNodeV>, b: Seq<HnswNodeV>, key: Seq<char>)
    requires
        a.len() == b.len(),
        forall|i: int| 0 <= i < a.len() ==> (#[trigger] a[i]).point == b[i].point,
    ensures
        last_node(a, key) == last_node(b, key),
    decreases a.len(),
{
    if a.len() > 0 {
        lemma_last_node_same(a.drop_last(), b.drop_last(), key);
    }
}

/// `count` layers without links.
pub open spec fn bare_layers(count: nat) -> Seq<Seq<usize>> {
    Seq::new(count, |i: int| Seq::empty())
}

/// The first `count` of the nodes that were found.
pub open spec fn nearest(found: Seq<(usize, Real)>, count: nat) -> Seq<usize> {
    Seq::new(
        if count <= found.len() {
            count
        } else {
            found.len()
        },
        |j: int| found[j].0,
    )
}

/// How links are ranked when there are too many: by distance, those that lead nowhere last.
pub open spec fn link_ranks(nodes: Seq<HnswNodeV>, grown: Seq<usize>, dists: Seq<Real>) -> Seq<i64> {
    Seq::new(
        grown.len(),
        |j: int|
            if grown[j] < nodes.len() {
                dists[j].near_rank() as i64
            } else {
                i64::MAX
            },
    )
}

/// The links of node `i` that stay when only `limit` of `grown` may: those to the nearest nodes,
/// nearest first.
pub open spec fn trims<K: Kernels>(
    k: &K,
    nodes: Seq<HnswNodeV>,
    i: int,
    grown: Seq<usize>,
    limit: nat,
    r: Seq<usize>,
) -> bool {
    exists|dists: Seq<Real>, order: Seq<usize>|
        {
            &&& dists.len() == grown.len()
            &&& forall|j: int|
                0 <= j < grown.len() && grown[j] < nodes.len() ==> gives_l2(
                    k,
                    nodes[i].point.vector,
                    nodes[grown[j] as int].point.vector,
                    #[trigger] dists[j],
                )
            &&& #[trigger] leads(link_ranks(nodes, grown, dists), limit, order)
            &&& r == Seq::new(order.len(), |j: int| grown[order[j] as int])
        }
}

/// Node `i` after it was linked to node `to` on a layer, as far as it reaches that layer.
pub open spec fn linked<K: Kernels>(
    k: &K,
    nodes: Seq<HnswNodeV>,
    max_connections: usize,
    layer: int,
    to: usize,
    i: int,
    after: HnswNodeV,
) -> bool {
    if layer < nodes[i].layers.len() {
        let grown = nodes[i].layers[layer].push(to);
        &&& after.point == nodes[i].point
        &&& after.layers == nodes[i].layers.update(layer, after.layers[layer])
        &&& if grown.len() <= 2 * max_connections {
            after.layers[layer] == grown
        } else {
            trims(k, nodes, i, grown, (2 * max_connections) as nat, after.layers[layer])
        }
    } else {
        after == nodes[i]
    }
}

/// What inserting a point on a layer comes to. In an empty index it stands alone. Otherwise the
/// new node, the last one, is linked to the nearest of the nodes that a search of the layer
/// finds, each of these is linked back, and nothing else changes.
pub open spec fn inserts<K: Kernels>(
    k: &K,
    before: Seq<HnswNodeV>,
    point: PointV,
    layer: nat,
    max_connections: usize,
    after: Seq<HnswNodeV>,
) -> bool {
    if before.len() == 0 {
        after == seq![HnswNodeV { point, layers: bare_layers(layer + 1) }]
    } else {
        exists|found: Seq<(usize, Real)>| #[trigger]
            finds(k, before, point.vector, 0, EF_CONSTRUCTION, layer as int, found) && inserts_near(
                k,
                before,
                point,
                layer,
                max_connections,
                nearest(found, max_connections as nat),
                after,
            )
    }
}

pub open spec fn inserts_near<K: Kernels>(
    k: &K,
    before: Seq<HnswNodeV>,
    point: PointV,
    layer: nat,
    max_connections: usize,
    near: Seq<usize>,
    after: Seq<HnswNodeV>,
) -> bool {
    let node = HnswNodeV { point, layers: bare_layers(layer + 1).update(layer as int, near) };
    let all = before.push(node);
    &&& after.len() == all.len()
    &&& after.last() == node
    &&& forall|i: int|
        0 <= i < before.len() ==> if near.contains(i as usize) {
            linked(k, all, max_connections, layer as int, before.len() as usize, i, #[trigger] after[i])
        } else {
            after[i] == before[i]
        }
}

/// How many nodes a search for `k` points keeps: what it is told, otherwise half as many again
/// as it looks for and no fewer than 16; in any case as many as it looks for.
pub open spec fn search_width(k: usize, ef: Option<usize>) -> usize {
    let wanted = match ef {
        Some(e) => e as int,
        None => if k + k / 2 > usize::MAX {
            usize::MAX as int
        } else if k + k / 2 < 16 {
            16
        } else {
            k + k / 2
        },
    };
    if wanted < k {
        k
    } else {
        wanted as usize
    }
}

/// Points with their scores.
pub open spec fn scored_of(v: Seq<(Point, Real)>) -> Seq<(PointV, Real)> {
    Seq::new(v.len(), |i: int| (v[i].0@, v[i].1))
}

/// What searching the index for `count` points comes to: the first of what a search of the
/// lowest layer finds, with their similarities.
pub open spec fn index_gives<K: Kernels>(
    k: &K,
    nodes: Seq<HnswNodeV>,
    query: Seq<Real>,
    count: usize,
    ef: Option<usize>,
    r: Seq<(PointV, Real)>,
) -> bool {
    if nodes.len() == 0 {
        r.len() == 0
    } else {
        exists|found: Seq<(usize, Real)>| #[trigger]
            finds(k, nodes, query, 0, search_width(count, ef), 0, found) && picks_points(k, nodes, found, count, r)
    }
}

pub open spec fn picks_points<K: Kernels>(
    k: &K,
    nodes: Seq<HnswNodeV>,
    found: Seq<(usize, Real)>,
    count: usize,
    r: Seq<(PointV, Real)>,
) -> bool {
    &&& r.len() == if count <= found.len() {
        count as nat
    } else {
        found.len()
    }
    &&& forall|j: int|
        0 <= j < r.len() ==> (#[trigger] r[j]).0 == nodes[found[j].0 as int].point && gives_similarity(
            k,
            found[j].1,
            r[j].1,
        )
}

fn bare(count: usize) -> (r: Vec<Vec<usize>>)
    ensures
        layers_view(r@) == bare_layers(count as nat),
        r@.len() == count,
{
    let mut r: Vec<Vec<usize>> = Vec::new();
    let mut i: usize = 0;
    while i < count
        invariant
            i <= count,
            r@.len() == i,
            forall|j: int| 0 <= j < i ==> (#[trigger] r@[j])@ == Seq::<usize>::empty(),
        decreases count - i,
    {
        let empty: Vec<usize> = Vec::new();
        assert(empty@ =~= Seq::<usize>::empty());
        r.push(empty);
        i += 1;
    }
    assert(layers_view(r@) =~= bare_layers(count as nat));
    r
}

impl HnswGraph {
    /// The links of a node that stay when only `limit` of `grown` may.
    fn trimmed<K: Kernels>(&self, k: &K, node_idx: usize, grown: &Vec<usize>, limit: usize) -> (r: Vec<usize>)
        requires
            self.wf(),
            node_idx < self@.len(),
        ensures
            trims(k, self@, node_idx as int, grown@, limit as nat, r@),
    {
        let n: usize = self.len();
        let here = self.get_vector(node_idx);
        let mut ranks: Vec<i64> = Vec::new();
        let ghost mut dists: Seq<Real> = Seq::empty();
        let mut j: usize = 0;
        while j < grown.len()
            invariant
                self.wf(),
                n == self@.len(),
                node_idx < n,
                here@ == self@[node_idx as int].point.vector,
                j <= grown@.len(),
                dists.len() == j,
                ranks@ == link_ranks(self@, grown@.take(j as int), dists),
                forall|m: int|
                    0 <= m < j && grown@[m] < self@.len() ==> gives_l2(
                        k,
                        here@,
                        self@[grown@[m] as int].point.vector,
                        #[trigger] dists[m],
                    ),
            decreases grown@.len() - j,
        {
            let to: usize = grown[j];
            let ghost dists0 = dists;
            let ghost ranks0 = ranks@;
            if to < n {
                let d = k.l2_distance(here, self.get_vector(to));
                assert(gives_l2(k, here@, self@[to as int].point.vector, d));
                ranks.push(d.rank_near());
                proof {
                    dists = dists.push(d);
                }
            } else {
                ranks.push(i64::MAX);
                proof {
                    dists = dists.push(Real { bits: 0 });
                }
            }
            proof {
                assert(ranks@ =~= link_ranks(self@, grown@.take(j + 1), dists)) by {
                    assert forall|m: int| 0 <= m < j + 1 implies #[trigger] ranks@[m] == link_ranks(
                        self@,
                        grown@.take(j + 1),
                        dists,
                    )[m] by {
                        if m < j {
                            assert(ranks@[m] == ranks0[m]);
                            assert(dists[m] == dists0[m]);
                        }
                    }
                }
                assert forall|m: int| 0 <= m < j + 1 && grown@[m] < self@.len() implies gives_l2(
                    k,
                    here@,
                    self@[grown@[m] as int].point.vector,
                    #[trigger] dists[m],
                ) by {
                    if m < j {
                        assert(dists[m] == dists0[m]);
                    }
                }
            }
            j += 1;
        }
        assert(grown@.take(j as int) =~= grown@);
        let order = sort_order(&ranks);
        let mut keep: usize = order.len();
        if keep > limit {
            keep = limit;
        }
        let mut r: Vec<usize> = Vec::new();
        let mut i: usize = 0;
        while i < keep
            invariant
                i <= keep,
                keep <= order@.len(),
                r@.len() == i,
                order@.len() == grown@.len(),
                forall|m: int| 0 <= m < order@.len() ==> 0 <= #[trigger] order@[m] < grown@.len(),
                forall|m: int| 0 <= m < i ==> #[trigger] r@[m] == grown@[order@[m] as int],
            decreases keep - i,
        {
            r.push(grown[order[i]]);
            i += 1;
        }
        proof {
            lemma_take_leads(ranks@, order@, limit as nat);
            let lead = order@.take(keep as int);
            assert(r@ =~= Seq::new(lead.len(), |m: int| grown@[lead[m] as int]));
        }
        r
    }
}

impl View for HnswIndex {
    type V = HnswIndexV;

    closed spec fn view(&self) -> HnswIndexV {
        HnswIndexV {
            nodes: self.graph@,
            max_connections: self.max_connections,
            max_layers: self.max_layers,
        }
    }
}

/// `ids` says of each key which is the last node that holds it.
spec fn indexes(ids: Map<Seq<char>, usize>, nodes: Seq<HnswNodeV>) -> bool {
    forall|key: Seq<char>| #[trigger]
        ids.contains_key(key) == (last_node(nodes, key) is Some) && (ids.contains_key(key) ==> last_node(nodes, key)
            == Some(ids[key] as int))
}

proof fn lemma_indexes_push(ids: Map<Seq<char>, usize>, nodes: Seq<HnswNodeV>, node: HnswNodeV)
    requires
        indexes(ids, nodes),
        nodes.len() <= usize::MAX,
    ensures
        indexes(ids.insert(node.point.key(), nodes.len() as usize), nodes.push(node)),
{
    let more = nodes.push(node);
    let ids2 = ids.insert(node.point.key(), nodes.len() as usize);
    assert(more.drop_last() =~= nodes);
    assert forall|key: Seq<char>| #[trigger] ids2.contains_key(key) == (last_node(more, key) is Some) && (
    ids2.contains_key(key) ==> last_node(more, key) == Some(ids2[key] as int)) by {
        assert(ids.contains_key(key) == (last_node(nodes, key) is Some));
    }
}

proof fn lemma_indexes_same(ids: Map<Seq<char>, usize>, a: Seq<HnswNodeV>, b: Seq<HnswNodeV>)
    requires
        indexes(ids, a),
        a.len() == b.len(),
        forall|i: int| 0 <= i < a.len() ==> (#[trigger] a[i]).point == b[i].point,
    ensures
        indexes(ids, b),
{
    assert forall|key: Seq<char>| #[trigger] ids.contains_key(key) == (last_node(b, key) is Some) && (
    ids.contains_key(key) ==> last_node(b, key) == Some(ids[key] as int)) by {
        lemma_last_node_same(a, b, key);
    }
}

impl HnswIndex {
    pub closed spec fn wf(&self) -> bool {
        &&& self.graph.wf()
        &&& self.visited.wf()
        &&& indexes(self.point_id_to_index@, self.graph@)
        &&& self.graph@.len() > 0 ==> self.max_layers >= 1
    }

    pub fn new(max_connections: usize, max_layers: usize) -> (r: HnswIndex)
        ensures
            r.wf(),
            r@ == (HnswIndexV { nodes: Seq::empty(), max_connections, max_layers }),
    {
        HnswIndex {
            graph: HnswGraph::new(),
            point_id_to_index: StringHashMap::new(),
            max_connections,
            max_layers,
            visited: VisitedSet::new(1024),
        }
    }

    /// Select layer using exponential decay: as high as tosses of a coin lead
    fn select_layer(&self) -> (r: usize)
        requires
            self.max_layers >= 1,
        ensures
            r < self.max_layers,
            exists|tosses: Seq<bool>| climbs(tosses, self.max_layers, r),
    {
        let mut layer: usize = 0;
        let ghost mut tosses: Seq<bool> = Seq::empty();
        while layer < self.max_layers - 1
            invariant_except_break
                layer < self.max_layers,
                tosses.len() == layer,
                forall|i: int| 0 <= i < tosses.len() ==> #[trigger] tosses[i],
            ensures
                climbs(tosses, self.max_layers, layer),
            decreases self.max_layers - layer,
        {
            let heads = coin();
            proof {
                tosses = tosses.push(heads);
            }
            match layer_above(layer, self.max_layers, heads) {
                Some(above) => {
                    layer = above;
                },
                None => {
                    break;
                },
            }
        }
        layer
    }

    /// Searches the layers above `layer`, from the top down, each from the first node and keeping
    /// one node. What is found is not used; the nodes that the last of these searches met stay
    /// marked as visited.
    fn descend<K: Kernels>(&mut self, k: &K, query: &[Real], layer: usize)
        requires
            old(self).wf(),
            old(self)@.nodes.len() > 0,
        ensures
            final(self).wf(),
            final(self)@ == old(self)@,
            if layer + 1 < old(self)@.max_layers {
                exists|found: Seq<(usize, Real)>| #[trigger]
                    finds_and_marks(
                        k,
                        old(self)@.nodes,
                        query@,
                        0,
                        1,
                        layer + 1,
                        found,
                        final(self).visited@,
                    )
            } else {
                final(self).visited == old(self).visited
            },
    {
        let mut current_layer: usize = self.max_layers - 1;
        while current_layer > layer
            invariant
                self.wf(),
                self@ == old(self)@,
                self@.nodes.len() > 0,
                current_layer < self.max_layers,
                current_layer < layer ==> current_layer + 1 == self.max_layers,
                if current_layer + 1 < self.max_layers {
                    exists|found: Seq<(usize, Real)>| #[trigger]
                        finds_and_marks(
                            k,
                            old(self)@.nodes,
                            query@,
                            0,
                            1,
                            current_layer + 1,
                            found,
                            self.visited@,
                        )
                } else {
                    self.visited == old(self).visited
                },
            ensures
                current_layer <= layer,
            decreases current_layer,
        {
            let neighbors = self.graph.search_layer(k, &mut self.visited, query, 0, 1, current_layer);
            proof {
                law_found_sorted(k, self.graph@, query@, 0, 1, current_layer as int, neighbors@);
            }
            if neighbors.len() > 0 {
                current_layer -= 1;
                assert(finds_and_marks(
                    k,
                    old(self)@.nodes,
                    query@,
                    0,
                    1,
                    current_layer + 1,
                    neighbors@,
                    self.visited@,
                ));
            } else {
                break;
            }
        }
    }

    /// Inserts a point on a layer.
    pub fn insert_at<K: Kernels>(&mut self, k: &K, point: Point, layer: usize)
        requires
            old(self).wf(),
            layer < old(self)@.max_layers,
        ensures
            final(self).wf(),
            inserts(k, old(self)@.nodes, point@, layer as nat, old(self)@.max_connections, final(self)@.nodes),
            final(self)@ == (HnswIndexV { nodes: final(self)@.nodes, ..old(self)@ }),
    {
        let id = point.id.key();
        let ghost before = self.graph@;
        let ghost point_v = point@;
        let mut layers = bare(layer + 1);
        let n: usize = self.graph.len();
        if n == 0 {
            self.graph.push(point, layers);
            self.point_id_to_index.insert(id, 0);
            proof {
                lemma_indexes_push(old(self).point_id_to_index@, before, self.graph@.last());
                assert(self.graph@ =~= seq![HnswNodeV { point: point_v, layers: bare_layers((layer + 1) as nat) }]);
            }
            return ;
        }
        self.descend(k, point.vector.as_slice(), layer);
        let found = self.graph.search_layer(
            k,
            &mut self.visited,
            point.vector.as_slice(),
            0,
            EF_CONSTRUCTION,
            layer,
        );
        proof {
            law_found_sorted(k, before, point_v.vector, 0, EF_CONSTRUCTION, layer as int, found@);
        }
        let mut near: Vec<usize> = Vec::new();
        let mut own: Vec<usize> = Vec::new();
        let mut i: usize = 0;
        while i < found.len() && i < self.max_connections
            invariant
                i <= found@.len(),
                i <= self.max_connections,
                near@.len() == i,
                own@ == near@,
                forall|j: int| 0 <= j < i ==> #[trigger] near@[j] == found@[j].0,
            decreases found@.len() - i,
        {
            near.push(found[i].0);
            own.push(found[i].0);
            i += 1;
        }
        assert(near@ =~= nearest(found@, self.max_connections as nat));
        let ghost bare_view = layers_view(layers@);
        layers[layer] = own;
        let ghost node = HnswNodeV {
            point: point_v,
            layers: bare_layers((layer + 1) as nat).update(layer as int, near@),
        };
        assert(layers_view(layers@) =~= node.layers);
        let ghost ids = self.point_id_to_index@;
        self.graph.push(point, layers);
        self.point_id_to_index.insert(id, n);
        let ghost all = before.push(node);
        proof {
            lemma_indexes_push(ids, before, node);
            assert(self.graph@ =~= all);
            assert forall|j: int| 0 <= j < near@.len() implies #[trigger] near@[j] < n by {
                assert(near@[j] == found@[j].0);
            }
            assert forall|a: int, b: int| 0 <= a < b < near@.len() implies #[trigger] near@[a] != #[trigger] near@[b] by {
                assert(near@[a] == found@[a].0 && near@[b] == found@[b].0);
            }
        }
        self.link_back(k, &near, layer, n);
        proof {
            lemma_indexes_same(self.point_id_to_index@, all, self.graph@);
            assert(inserts_near(
                k,
                before,
                point_v,
                layer as nat,
                old(self)@.max_connections,
                nearest(found@, old(self)@.max_connections as nat),
                self.graph@,
            )) by {
                let after = self.graph@;
                assert forall|i: int| 0 <= i < before.len() implies if near@.contains(i as usize) {
                    linked(
                        k,
                        all,
                        old(self)@.max_connections,
                        layer as int,
                        before.len() as usize,
                        i,
                        #[trigger] after[i],
                    )
                } else {
                    after[i] == before[i]
                } by {
                    assert(all[i] == before[i]);
                }
            }
        }
    }

    /// Links the nodes `near` to node `to` on a layer.
    fn link_back<K: Kernels>(&mut self, k: &K, near: &Vec<usize>, layer: usize, to: usize)
        requires
            old(self).graph.wf(),
            forall|j: int| 0 <= j < near@.len() ==> #[trigger] near@[j] < old(self).graph@.len(),
            forall|a: int, b: int| 0 <= a < b < near@.len() ==> #[trigger] near@[a] != #[trigger] near@[b],
        ensures
            final(self).graph.wf(),
            final(self).graph@.len() == old(self).graph@.len(),
            forall|i: int|
                0 <= i < old(self).graph@.len() ==> (#[trigger] final(self).graph@[i]).point
                    == old(self).graph@[i].point,
            forall|i: int|
                0 <= i < old(self).graph@.len() ==> if near@.contains(i as usize) {
                    linked(
                        k,
                        old(self).graph@,
                        old(self).max_connections,
                        layer as int,
                        to,
                        i,
                        #[trigger] final(self).graph@[i],
                    )
                } else {
                    final(self).graph@[i] == old(self).graph@[i]
                },
            final(self).point_id_to_index == old(self).point_id_to_index,
            final(self).max_connections == old(self).max_connections,
            final(self).max_layers == old(self).max_layers,
            final(self).visited == old(self).visited,
    {
        let ghost all = self.graph@;
        let total: usize = self.graph.len();
        let mut j: usize = 0;
        while j < near.len()
            invariant
                total == all.len(),
                j <= near@.len(),
                self.graph.wf(),
                all == old(self).graph@,
                self.graph@.len() == all.len(),
                self.point_id_to_index == old(self).point_id_to_index,
                self.max_connections == old(self).max_connections,
                self.max_layers == old(self).max_layers,
                self.visited == old(self).visited,
                forall|m: int| 0 <= m < near@.len() ==> #[trigger] near@[m] < all.len(),
                forall|a: int, b: int| 0 <= a < b < near@.len() ==> #[trigger] near@[a] != #[trigger] near@[b],
                forall|i: int| 0 <= i < all.len() ==> (#[trigger] self.graph@[i]).point == all[i].point,
                forall|i: int|
                    0 <= i < all.len() ==> if near@.take(j as int).contains(i as usize) {
                        linked(k, all, self.max_connections, layer as int, to, i, #[trigger] self.graph@[i])
                    } else {
                        self.graph@[i] == all[i]
                    },
            decreases near@.len() - j,
        {
            let ghost graph0 = self.graph@;
            let nb: usize = near[j];
            proof {
                let sofar = near@.take(j as int);
                assert(!sofar.contains(nb)) by {
                    if sofar.contains(nb) {
                        let m = choose|m: int| 0 <= m < sofar.len() && sofar[m] == nb;
                        assert(near@[m] != near@[j as int]);
                    }
                }
                assert(graph0[nb as int] == all[nb as int]);
            }
            if layer < self.graph.layer_count(nb) {
                let mut grown = self.graph.neighbors(nb, layer);
                grown.push(to);
                let ghost grown_v = grown@;
                let kept_links = match self.max_connections.checked_mul(2) {
                    Some(limit) if grown.len() > limit => self.graph.trimmed(k, nb, &grown, limit),
                    _ => grown,
                };
                let ghost kept_v = kept_links@;
                proof {
                    let limit = (2 * self.max_connections) as nat;
                    if grown_v.len() > limit {
                        lemma_trims_same(k, graph0, all, nb as int, grown_v, limit, kept_v);
                    }
                }
                self.graph.set_links(nb, layer, kept_links);
                assert(linked(k, all, self.max_connections, layer as int, to, nb as int, self.graph@[nb as int]));
            }
            proof {
                assert forall|i: int| 0 <= i < all.len() implies if near@.take(j + 1).contains(i as usize) {
                    linked(k, all, self.max_connections, layer as int, to, i, #[trigger] self.graph@[i])
                } else {
                    self.graph@[i] == all[i]
                } by {
                    let sofar = near@.take(j as int);
                    let now = near@.take(j + 1);
                    assert(now =~= sofar.push(nb));
                    if i as usize == nb {
                        assert(now[j as int] == nb);
                    } else {
                        assert(self.graph@[i] == graph0[i]);
                        if sofar.contains(i as usize) {
                            let m = choose|m: int| 0 <= m < sofar.len() && sofar[m] == i as usize;
                            assert(now[m] == i as usize);
                        }
                        if now.contains(i as usize) {
                            let m = choose|m: int| 0 <= m < now.len() && now[m] == i as usize;
                            assert(sofar[m] == i as usize);
                        }
                    }
                }
            }
            j += 1;
        }
        assert(near@.take(j as int) =~= near@);
    }
}

/// The points in the order of their nodes.
pub open spec fn points_of(nodes: Seq<HnswNodeV>) -> Seq<PointV> {
    Seq::new(nodes.len(), |i: int| nodes[i].point)
}

/// Inserting a point puts it behind the points that are there and leaves those as they are.
pub proof fn law_insert_adds_point<K: Kernels>(
    k: &K,
    before: Seq<HnswNodeV>,
    point: PointV,
    layer: nat,
    max_connections: usize,
    after: Seq<HnswNodeV>,
)
    requires
        inserts(k, before, point, layer, max_connections, after),
    ensures
        points_of(after) == points_of(before).push(point),
{
    if before.len() > 0 {
        let found = choose|found: Seq<(usize, Real)>| #[trigger]
            finds(k, before, point.vector, 0, EF_CONSTRUCTION, layer as int, found) && inserts_near(
                k,
                before,
                point,
                layer,
                max_connections,
                nearest(found, max_connections as nat),
                after,
            );
        let near = nearest(found, max_connections as nat);
        let all = before.push(HnswNodeV { point, layers: bare_layers(layer + 1).update(layer as int, near) });
        assert forall|i: int| 0 <= i < before.len() implies (#[trigger] after[i]).point == before[i].point by {
            assert(all[i] == before[i]);
        }
        assert(after[before.len() as int].point == point);
    }
    assert(points_of(after) =~= points_of(before).push(point));
}

/// After a point was inserted there is one node more, which is the one that its key leads to, also
/// where the key was there before; taking that node out leaves the points that were there.
pub proof fn law_inserted_then_removed<K: Kernels>(
    k: &K,
    before: Seq<HnswNodeV>,
    point: PointV,
    layer: nat,
    max_connections: usize,
    after: Seq<HnswNodeV>,
)
    requires
        inserts(k, before, point, layer, max_connections, after),
    ensures
        after.len() == before.len() + 1,
        last_node(after, point.key()) == Some(before.len() as int),
        points_of(after.remove(before.len() as int)) == points_of(before),
{
    law_insert_adds_point(k, before, point, layer, max_connections, after);
    assert(points_of(after).len() == after.len());
    assert(points_of(after)[before.len() as int] == point);
    let rest = after.remove(before.len() as int);
    assert forall|i: int| 0 <= i < before.len() implies #[trigger] points_of(rest)[i] == points_of(before)[i] by {
        assert(points_of(after)[i] == points_of(before)[i]);
    }
    assert(points_of(rest) =~= points_of(before));
}

impl HnswIndex {
    /// Insert a new point into the HNSW graph
    pub fn insert<K: Kernels>(&mut self, k: &K, point: Point)
        requires
            old(self).wf(),
            old(self)@.max_layers >= 1,
        ensures
            final(self).wf(),
            exists|layer: nat|
                layer < old(self)@.max_layers && #[trigger] inserts(
                    k,
                    old(self)@.nodes,
                    point@,
                    layer,
                    old(self)@.max_connections,
                    final(self)@.nodes,
                ),
            points_of(final(self)@.nodes) == points_of(old(self)@.nodes).push(point@),
            final(self)@ == (HnswIndexV { nodes: final(self)@.nodes, ..old(self)@ }),
    {
        let layer: usize = self.select_layer();
        let ghost point_v = point@;
        self.insert_at(k, point, layer);
        proof {
            law_insert_adds_point(
                k,
                old(self)@.nodes,
                point_v,
                layer as nat,
                old(self)@.max_connections,
                self@.nodes,
            );
        }
    }

    /// Search for k nearest neighbors
    pub fn search<K: Kernels>(&mut self, kernels: &K, query: &Vector, k: usize, ef: Option<usize>) -> (r: Vec<
        (Point, Real),
    >)
        requires
            old(self).wf(),
        ensures
            final(self).wf(),
            final(self)@ == old(self)@,
            index_gives(kernels, old(self)@.nodes, query@, k, ef, scored_of(r@)),
    {
        let n: usize = self.graph.len();
        if n == 0 {
            return Vec::new();
        }
        let wanted: usize = match ef {
            Some(e) => e,
            None => {
                let wide: usize = match k.checked_add(k / 2) {
                    Some(w) => w,
                    None => usize::MAX,
                };
                if wide < 16 {
                    16
                } else {
                    wide
                }
            },
        };
        let width: usize = if wanted < k {
            k
        } else {
            wanted
        };
        assert(width == search_width(k, ef));
        if n >= SMALL_INDEX {
            self.descend(kernels, query.as_slice(), 0);
        }
        let found = self.graph.search_layer(kernels, &mut self.visited, query.as_slice(), 0, width, 0);
        proof {
            law_found_sorted(kernels, self.graph@, query@, 0, width, 0, found@);
        }
        let mut r: Vec<(Point, Real)> = Vec::new();
        let mut j: usize = 0;
        while j < found.len() && j < k
            invariant
                j <= found@.len(),
                j <= k,
                r@.len() == j,
                forall|m: int| 0 <= m < found@.len() ==> (#[trigger] found@[m]).0 < self.graph@.len(),
                forall|m: int|
                    0 <= m < j ==> (#[trigger] r@[m]).0@ == self.graph@[found@[m].0 as int].point
                        && gives_similarity(kernels, found@[m].1, r@[m].1),
            decreases found@.len() - j,
        {
            let near = similarity(kernels, found[j].1);
            let point = self.graph.point(found[j].0).clone();
            r.push((point, near));
            j += 1;
        }
        assert(picks_points(kernels, self.graph@, found@, k, scored_of(r@)));
        r
    }

    /// Takes out the last node that holds a point stored under `point_id`, if there is one.
    pub fn remove(&mut self, point_id: &str) -> (r: bool)
        requires
            old(self).wf(),
        ensures
            final(self).wf(),
            r == (last_node(old(self)@.nodes, point_id@) is Some),
            final(self)@ == (HnswIndexV {
                nodes: match last_node(old(self)@.nodes, point_id@) {
                    Some(i) => old(self)@.nodes.remove(i),
                    None => old(self)@.nodes,
                },
                ..old(self)@
            }),
    {
        proof {
            lemma_last_node(self.graph@, point_id@);
        }
        let index: usize = match self.point_id_to_index.get(point_id) {
            Some(i) => *i,
            None => {
                return false;
            },
        };
        self.graph.remove(index);
        self.point_id_to_index.clear();
        let n: usize = self.graph.len();
        let mut i: usize = 0;
        let ghost nodes = self.graph@;
        while i < n
            invariant
                i <= n,
                n == nodes.len(),
                nodes == self.graph@,
                self.graph.wf(),
                self.visited.wf(),
                self.max_connections == old(self).max_connections,
                self.max_layers == old(self).max_layers,
                indexes(self.point_id_to_index@, nodes.take(i as int)),
            decreases n - i,
        {
            let id = self.graph.point(i).id.key();
            proof {
                lemma_indexes_push(self.point_id_to_index@, nodes.take(i as int), nodes[i as int]);
                assert(nodes.take(i + 1) =~= nodes.take(i as int).push(nodes[i as int]));
            }
            self.point_id_to_index.insert(id, i);
            i += 1;
        }
        assert(nodes.take(i as int) =~= nodes);
        true
    }

    pub fn len(&self) -> (r: usize)
        ensures
            r == self@.nodes.len(),
    {
        self.graph.len()
    }

    pub fn is_empty(&self) -> (r: bool)
        ensures
            r == (self@.nodes.len() == 0),
    {
        self.graph.len() == 0
    }
}

/// Trimming looks at the vectors alone.
proof fn lemma_trims_same<K: Kernels>(
    k: &K,
    a: Seq<HnswNodeV>,
    b: Seq<HnswNodeV>,
    i: int,
    grown: Seq<usize>,
    limit: nat,
    r: Seq<usize>,
)
    requires
        trims(k, a, i, grown, limit, r),
        a.len() == b.len(),
        0 <= i < a.len(),
        forall|j: int| 0 <= j < a.len() ==> (#[trigger] a[j]).point == b[j].point,
    ensures
        trims(k, b, i, grown, limit, r),
{
    let (dists, order) = choose|dists: Seq<Real>, order: Seq<usize>|
        {
            &&& dists.len() == grown.len()
            &&& forall|j: int|
                0 <= j < grown.len() && grown[j] < a.len() ==> gives_l2(
                    k,
                    a[i].point.vector,
                    a[grown[j] as int].point.vector,
                    #[trigger] dists[j],
                )
            &&& #[trigger] leads(link_ranks(a, grown, dists), limit, order)
            &&& r == Seq::new(order.len(), |j: int| grown[order[j] as int])
        };
    assert(link_ranks(a, grown, dists) =~= link_ranks(b, grown, dists));
    assert forall|j: int| 0 <= j < grown.len() && grown[j] < b.len() implies gives_l2(
        k,
        b[i].point.vector,
        b[grown[j] as int].point.vector,
        #[trigger] dists[j],
    ) by {
        assert(a[i].point == b[i].point);
        assert(a[grown[j] as int].point == b[grown[j] as int].point);
    }
}

} // verus!
