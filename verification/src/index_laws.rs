//! How the vector index grows and how it is walked.

use vstd::prelude::*;
use crate::graph::{links, HnswNodeV};
use crate::hnsw::{bare_layers, inserts, inserts_near, link_ranks, linked, nearest, trims};
use crate::ieee::Real;
use crate::kernels::{gives_distance, gives_dot, gives_l2, Kernels};
use crate::order::{leads, ranked};
use crate::point::PointV;
use crate::search_laws::one_minus_dot;
use crate::walk::{
    expanded, finds, found_by, has_seen, law_found_sorted, law_search_exact_with_room, near_ranks,
    reachable, walks,
};

verus! {

/// A walk is good around what it finds: a node that one of the found nodes links to is found too,
/// or is no nearer to the query than any node found.
pub proof fn law_no_nearer_neighbor<K: Kernels>(
    k: &K,
    nodes: Seq<HnswNodeV>,
    query: Seq<Real>,
    entry: usize,
    ef: usize,
    layer: int,
    r: Seq<(usize, Real)>,
    i: int,
    node: usize,
)
    requires
        finds(k, nodes, query, entry, ef, layer, r),
        nodes.len() <= usize::MAX,
        0 <= i < r.len(),
        links(nodes, r[i].0 as int, layer).contains(node),
        node < nodes.len(),
        forall|j: int| 0 <= j < r.len() ==> (#[trigger] r[j]).0 != node,
    ensures
        exists|d: Real| #[trigger]
            one_minus_dot(k, query, nodes[node as int].point.vector, d) && forall|j: int|
                0 <= j < r.len() ==> (#[trigger] r[j]).1.near_rank() <= d.near_rank(),
{
    let (seen, order) = choose|seen: Seq<(usize, Real)>, order: Seq<usize>| #[trigger]
        found_by(k, nodes, query, entry, ef, layer, r, seen, order);
    assert(expanded(nodes, layer, seen, r[i].0));
    assert(has_seen(seen, node));
    let q = choose|q: int| 0 <= q < seen.len() && (#[trigger] seen[q]).0 == node;
    let d = seen[q].1;
    assert(gives_distance(k, query, nodes[node as int].point.vector, d));
    lemma_seen_fits(k, nodes, query, entry, layer, seen);
    assert(!order.contains(q as usize)) by {
        if order.contains(q as usize) {
            let x = choose|x: int| 0 <= x < order.len() && order[x] == q as usize;
            assert(r[x] == seen[q]);
        }
    }
    assert forall|j: int| 0 <= j < r.len() implies (#[trigger] r[j]).1.near_rank() <= d.near_rank() by {
        assert(ranked(near_ranks(seen), order[j] as int).precedes(ranked(near_ranks(seen), q)));
        assert(r[j] == seen[order[j] as int]);
    }
    let p = choose|p: Real|
        gives_dot(k, query, nodes[node as int].point.vector, p) && #[trigger] call_ensures(
            K::minus,
            (k, Real { bits: 0x3f80_0000 }, p),
            d,
        );
    assert(one_minus_dot(k, query, nodes[node as int].point.vector, d));
}

/// No more nodes are met than there are.
proof fn lemma_seen_fits<K: Kernels>(
    k: &K,
    nodes: Seq<HnswNodeV>,
    query: Seq<Real>,
    entry: usize,
    layer: int,
    seen: Seq<(usize, Real)>,
)
    requires
        walks(k, nodes, query, entry, layer, seen),
    ensures
        seen.len() <= nodes.len(),
{
    let met = Seq::new(seen.len(), |i: int| seen[i].0 as int);
    assert(met.no_duplicates()) by {
        assert forall|i: int, j: int| 0 <= i < met.len() && 0 <= j < met.len() && i != j implies met[i] != met[j] by {
            if i < j {
                assert(seen[i].0 != seen[j].0);
            } else {
                assert(seen[j].0 != seen[i].0);
            }
        }
    }
    met.unique_seq_to_set();
    let all = vstd::set_lib::set_int_range(0, nodes.len() as int);
    vstd::set_lib::lemma_int_range(0, nodes.len() as int);
    assert(met.to_set().subset_of(all)) by {
        assert forall|x: int| met.to_set().contains(x) implies all.contains(x) by {
            let i = choose|i: int| 0 <= i < met.len() && met[i] == x;
            assert(seen[i].0 < nodes.len());
        }
    }
    vstd::set_lib::lemma_len_subset(met.to_set(), all);
}

/// A node that is inserted has its layers up to its own, with links on that one: to nodes that were
/// there, none twice, at most as many as allowed and at least one; with fewer than allowed, to every
/// node that a walk on its layer can reach.
pub proof fn law_inserted_node_linked<K: Kernels>(
    k: &K,
    before: Seq<HnswNodeV>,
    point: PointV,
    layer: nat,
    max_connections: usize,
    after: Seq<HnswNodeV>,
)
    requires
        inserts(k, before, point, layer, max_connections, after),
        before.len() > 0,
        0 < max_connections < 200,
    ensures
        after.len() == before.len() + 1,
        after.last().point == point,
        after.last().layers.len() == layer + 1,
        forall|l: int| 0 <= l < layer ==> (#[trigger] after.last().layers[l]).len() == 0,
        1 <= after.last().layers[layer as int].len() <= max_connections,
        after.last().layers[layer as int].no_duplicates(),
        forall|j: int|
            0 <= j < after.last().layers[layer as int].len() ==> #[trigger] after.last().layers[layer as int][j]
                < before.len(),
        after.last().layers[layer as int].len() < max_connections ==> forall|node: usize| #[trigger]
            reachable(before, layer as int, 0, node) ==> after.last().layers[layer as int].contains(node),
{
    let found = choose|found: Seq<(usize, Real)>| #[trigger]
        finds(k, before, point.vector, 0, 200, layer as int, found) && inserts_near(
            k,
            before,
            point,
            layer,
            max_connections,
            nearest(found, max_connections as nat),
            after,
        );
    let near = nearest(found, max_connections as nat);
    law_found_sorted(k, before, point.vector, 0, 200, layer as int, found);
    assert(after.last().layers[layer as int] == near);
    assert(near.no_duplicates()) by {
        assert forall|i: int, j: int| 0 <= i < near.len() && 0 <= j < near.len() && i != j implies near[i] != near[j] by {
            if i < j {
                assert(found[i].0 != found[j].0);
            } else {
                assert(found[j].0 != found[i].0);
            }
        }
    }
    assert forall|j: int| 0 <= j < near.len() implies #[trigger] near[j] < before.len() by {
        assert(found[j].0 < before.len());
    }
    if near.len() < max_connections {
        assert forall|node: usize| #[trigger] reachable(before, layer as int, 0, node) implies near.contains(node) by {
            law_search_exact_with_room(k, before, point.vector, 0, 200, layer as int, found, node);
            let q = choose|q: int| 0 <= q < found.len() && (#[trigger] found[q]).0 == node;
            assert(near[q] == node);
        }
    }
}

/// The nodes that a new one links to link back to it where they have its layer and room, up to
/// twice as many links as a new node has; with no room they keep that many. No other node changes,
/// and no other layer.
pub proof fn law_links_lead_back<K: Kernels>(
    k: &K,
    before: Seq<HnswNodeV>,
    point: PointV,
    layer: nat,
    max_connections: usize,
    after: Seq<HnswNodeV>,
    i: int,
)
    requires
        inserts(k, before, point, layer, max_connections, after),
        0 <= i < before.len() < usize::MAX,
        2 * max_connections <= usize::MAX,
    ensures
        after[i].point == before[i].point,
        after[i].layers.len() == before[i].layers.len(),
        forall|l: int| 0 <= l < before[i].layers.len() && l != layer ==> #[trigger] after[i].layers[l] == before[i].layers[l],
        !after.last().layers[layer as int].contains(i as usize) ==> after[i] == before[i],
        after.last().layers[layer as int].contains(i as usize) && layer < before[i].layers.len() ==> {
            let grown = before[i].layers[layer as int].push(before.len() as usize);
            if grown.len() <= 2 * max_connections {
                after[i].layers[layer as int] == grown
            } else {
                after[i].layers[layer as int].len() == 2 * max_connections && forall|j: int|
                    0 <= j < after[i].layers[layer as int].len() ==> grown.contains(
                        #[trigger] after[i].layers[layer as int][j],
                    )
            }
        },
{
    let found = choose|found: Seq<(usize, Real)>| #[trigger]
        finds(k, before, point.vector, 0, 200, layer as int, found) && inserts_near(
            k,
            before,
            point,
            layer,
            max_connections,
            nearest(found, max_connections as nat),
            after,
        );
    let near = nearest(found, max_connections as nat);
    let node = HnswNodeV { point, layers: bare_layers(layer + 1).update(layer as int, near) };
    let all = before.push(node);
    assert(after.last().layers[layer as int] == near);
    assert(all[i] == before[i]);
    if near.contains(i as usize) {
        assert(linked(k, all, max_connections, layer as int, before.len() as usize, i, after[i]));
        if layer < before[i].layers.len() {
            let grown = before[i].layers[layer as int].push(before.len() as usize);
            if grown.len() > 2 * max_connections {
                law_trim_keeps_nearest(
                    k,
                    all,
                    i,
                    grown,
                    (2 * max_connections) as nat,
                    after[i].layers[layer as int],
                );
            }
        }
    }
}

/// How far a node is from another, where there is one.
pub open spec fn link_distances<K: Kernels>(
    k: &K,
    nodes: Seq<HnswNodeV>,
    i: int,
    grown: Seq<usize>,
    dists: Seq<Real>,
) -> bool {
    dists.len() == grown.len() && forall|j: int|
        0 <= j < grown.len() && grown[j] < nodes.len() ==> gives_l2(
            k,
            nodes[i].point.vector,
            nodes[grown[j] as int].point.vector,
            #[trigger] dists[j],
        )
}

/// A link that stands at `a` is kept before one at `b` is: it leads to a node, and to one that is no
/// farther away.
pub open spec fn no_farther(nodes: Seq<HnswNodeV>, grown: Seq<usize>, dists: Seq<Real>, a: int, b: int) -> bool {
    grown[b] < nodes.len() ==> grown[a] < nodes.len() && dists[a].near_rank() <= dists[b].near_rank()
}

/// What stands at `places` is kept, none twice, and no link that is dropped leads to a nearer node.
pub open spec fn kept_at(
    nodes: Seq<HnswNodeV>,
    grown: Seq<usize>,
    dists: Seq<Real>,
    places: Seq<usize>,
    r: Seq<usize>,
) -> bool {
    &&& places.len() == r.len()
    &&& places.no_duplicates()
    &&& forall|j: int| 0 <= j < r.len() ==> #[trigger] places[j] < grown.len() && r[j] == grown[places[j] as int]
    &&& forall|j: int, b: usize|
        0 <= j < r.len() && b < grown.len() && !#[trigger] places.contains(b) ==> no_farther(
            nodes,
            grown,
            dists,
            #[trigger] places[j] as int,
            b as int,
        )
}

/// Links that are too many are trimmed to the nearest: what is kept are links that were there, as
/// many as allowed, and none that is dropped leads to a node that is nearer.
pub proof fn law_trim_keeps_nearest<K: Kernels>(
    k: &K,
    nodes: Seq<HnswNodeV>,
    i: int,
    grown: Seq<usize>,
    limit: nat,
    r: Seq<usize>,
)
    requires
        trims(k, nodes, i, grown, limit, r),
    ensures
        r.len() == if limit <= grown.len() {
            limit
        } else {
            grown.len()
        },
        forall|j: int| 0 <= j < r.len() ==> grown.contains(#[trigger] r[j]),
        exists|dists: Seq<Real>, places: Seq<usize>| #[trigger]
            link_distances(k, nodes, i, grown, dists) && #[trigger] kept_at(nodes, grown, dists, places, r),
{
    let (dists, order) = choose|dists: Seq<Real>, order: Seq<usize>|
        {
            &&& dists.len() == grown.len()
            &&& forall|j: int|
                0 <= j < grown.len() && grown[j] < nodes.len() ==> gives_l2(
                    k,
                    nodes[i].point.vector,
                    nodes[grown[j] as int].point.vector,
                    #[trigger] dists[j],
                )
            &&& #[trigger] leads(link_ranks(nodes, grown, dists), limit, order)
            &&& r == Seq::new(order.len(), |j: int| grown[order[j] as int])
        };
    let ranks = link_ranks(nodes, grown, dists);
    assert(link_distances(k, nodes, i, grown, dists));
    assert forall|j: int| 0 <= j < r.len() implies grown.contains(#[trigger] r[j]) by {
        assert(grown[order[j] as int] == r[j]);
    }
    assert(order.no_duplicates()) by {
        assert forall|a: int, b: int| 0 <= a < order.len() && 0 <= b < order.len() && a != b implies order[a] != order[b] by {
            if a < b {
                assert(ranked(ranks, order[a] as int).precedes(ranked(ranks, order[b] as int)));
            } else {
                assert(ranked(ranks, order[b] as int).precedes(ranked(ranks, order[a] as int)));
            }
        }
    }
    assert forall|j: int, b: usize|
        0 <= j < r.len() && b < grown.len() && !#[trigger] order.contains(b) implies no_farther(
        nodes,
        grown,
        dists,
        #[trigger] order[j] as int,
        b as int,
    ) by {
        assert(ranked(ranks, order[j] as int).precedes(ranked(ranks, b as int)));
        assert(-0x8000_0000 < dists[b as int].near_rank() < 0x8000_0000);
    }
    assert(kept_at(nodes, grown, dists, order, r));
}

} // verus!
