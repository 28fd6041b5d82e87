//! What searching a collection finds, whatever way the search takes.

use vstd::prelude::*;
use crate::collection::{
    builds_next, builds_through, retained, searches, searches_scaled, warms, CollectionV,
    MAX_CONNECTIONS, MAX_LAYERS,
};
use crate::config::Distance;
use crate::entries::lookup;
use crate::graph::HnswNodeV;
use crate::hnsw::{
    index_gives, inserts, law_insert_adds_point, picks_points, points_of, search_width,
};
use crate::ieee::Real;
use crate::kernels::{
    gives_cosine, gives_dot, gives_l2, gives_normalized, gives_plain_score, gives_product_added,
    gives_score, product_sums, Kernels,
};
use crate::order::{leads, ranked};
use crate::point::{PointV, SparseVectorV};
use crate::scoring::{
    above_zero, best_ranks, document_rows, multivector_gives, plainly_scores, scores_by,
    scores_multi, scores_sparse, scoring, selected, sparse_gives, takes_best, with_sparse,
};
use crate::similarity::{
    adds_best_row, best_sums, gives_best_row, gives_max_sim, gives_row_score, gives_sparse_dot,
    highest, law_highest, scores_rows,
};
use crate::walk::{finds, has_seen, law_found_sorted, law_search_exact_with_room, reachable};

verus! {

// ---------------------------------------------------------------------------------------------
// The best of what was scored

/// Points with the scores they got, in their order.
pub open spec fn with_scores(points: Seq<PointV>, scores: Seq<Real>) -> Seq<(PointV, Real)> {
    Seq::new(points.len(), |i: int| (points[i], scores[i]))
}

/// A score is not better than another: it is not higher, and one that is no number is worse than
/// any number.
pub open spec fn no_better(a: Real, b: Real) -> bool {
    (b.nan() ==> a.nan()) && !b.less(a)
}

/// `r` is what stands at `places`: as many as there are up to the limit, none twice, the best
/// first, and nothing that was left out is better.
pub open spec fn top_at(all: Seq<(PointV, Real)>, limit: nat, places: Seq<int>, r: Seq<(PointV, Real)>) -> bool {
    &&& r.len() == if limit <= all.len() {
        limit
    } else {
        all.len()
    }
    &&& places.len() == r.len()
    &&& forall|j: int| 0 <= j < r.len() ==> 0 <= #[trigger] places[j] < all.len() && r[j] == all[places[j]]
    &&& forall|i: int, j: int| 0 <= i < j < r.len() ==> #[trigger] places[i] != #[trigger] places[j]
    &&& forall|i: int, j: int| 0 <= i < j < r.len() ==> no_better((#[trigger] r[j]).1, (#[trigger] r[i]).1)
    &&& forall|m: int, j: int|
        0 <= m < all.len() && 0 <= j < r.len() && !places.contains(m) ==> no_better(
            (#[trigger] all[m]).1,
            (#[trigger] r[j]).1,
        )
}

/// `r` holds the best of `all`, best first, at most `limit` of them.
pub open spec fn top(all: Seq<(PointV, Real)>, limit: nat, r: Seq<(PointV, Real)>) -> bool {
    exists|places: Seq<int>| #[trigger] top_at(all, limit, places, r)
}

/// Taking the best leaves out nothing that there is room for, and nothing that is better than
/// what it takes.
pub proof fn law_best_are_taken(points: Seq<PointV>, scores: Seq<Real>, limit: nat, r: Seq<(PointV, Real)>)
    requires
        takes_best(points, scores, limit, r),
        points.len() <= usize::MAX,
    ensures
        top(with_scores(points, scores), limit, r),
{
    let ranks = best_ranks(scores);
    let order = choose|order: Seq<usize>| #[trigger]
        leads(ranks, limit, order) && r == Seq::new(
            order.len(),
            |j: int| (points[order[j] as int], scores[order[j] as int]),
        );
    let places = Seq::new(order.len(), |j: int| order[j] as int);
    let all = with_scores(points, scores);
    assert forall|i: int, j: int| 0 <= i < j < r.len() implies #[trigger] places[i] != #[trigger] places[j] by {
        assert(ranked(ranks, order[i] as int).precedes(ranked(ranks, order[j] as int)));
    }
    assert forall|i: int, j: int| 0 <= i < j < r.len() implies no_better((#[trigger] r[j]).1, (#[trigger] r[i]).1) by {
        assert(ranked(ranks, order[i] as int).precedes(ranked(ranks, order[j] as int)));
    }
    assert forall|m: int, j: int| 0 <= m < all.len() && 0 <= j < r.len() && !places.contains(m) implies no_better(
        (#[trigger] all[m]).1,
        (#[trigger] r[j]).1,
    ) by {
        assert(!order.contains(m as usize)) by {
            if order.contains(m as usize) {
                let x = choose|x: int| 0 <= x < order.len() && order[x] == m as usize;
                assert(places[x] == m);
            }
        }
        assert(ranked(ranks, order[j] as int).precedes(ranked(ranks, m)));
    }
    assert(top_at(all, limit, places, r));
}

/// The points that a filter lets through are those of the list that it accepts, in their order.
pub proof fn law_selected_are_accepted(points: Seq<PointV>, pass: spec_fn(PointV) -> bool)
    ensures
        selected(points, pass) == points.filter(pass),
    decreases points.len(),
{
    reveal(Seq::filter);
    if points.len() > 0 {
        law_selected_are_accepted(points.drop_last(), pass);
    } else {
        assert(selected(points, pass) =~= points.filter(pass));
    }
}

// ---------------------------------------------------------------------------------------------
// Scores

/// The score of a vector: by the inner product with the query, or by the distance from it, which
/// counts the less the longer it is.
pub open spec fn right_score<K: Kernels>(k: &K, distance: Distance, query: Seq<Real>, vector: Seq<Real>, r: Real) -> bool {
    match distance {
        Distance::Euclidean => exists|d: Real| #[trigger]
            gives_l2(k, query, vector, d) && r.nan() == d.nan() && r.place() == -d.place(),
        _ => gives_dot(k, query, vector, r),
    }
}

/// The score of a vector in a collection too large to be searched one by one, that has no index.
pub open spec fn right_plain_score<K: Kernels>(
    k: &K,
    distance: Distance,
    query: Seq<Real>,
    vector: Seq<Real>,
    r: Real,
) -> bool {
    match distance {
        Distance::Euclidean => exists|d: Real| #[trigger]
            gives_l2(k, vector, query, d) && r.nan() == d.nan() && r.place() == -d.place(),
        Distance::Cosine => gives_cosine(k, vector, query, r),
        Distance::Dot => exists|sums: Seq<Real>| #[trigger]
            adds_up_products(k, vector, query, sums) && r == sums.last(),
    }
}

/// The sums of the products of two vectors' components, from zero on.
pub open spec fn adds_up_products<K: Kernels>(k: &K, a: Seq<Real>, b: Seq<Real>, sums: Seq<Real>) -> bool {
    &&& sums.len() >= 1
    &&& sums.len() <= a.len() + 1
    &&& sums.len() <= b.len() + 1
    &&& sums.len() == a.len() + 1 || sums.len() == b.len() + 1
    &&& sums[0].bits == 0
    &&& forall|i: int| 0 <= i < sums.len() - 1 ==> adds_product(k, sums[i], a[i], b[i], #[trigger] sums[i + 1])
}

/// The product of two numbers is added to a sum.
pub open spec fn adds_product<K: Kernels>(k: &K, sum: Real, x: Real, y: Real, r: Real) -> bool {
    exists|p: Real| #[trigger] call_ensures(K::times, (k, x, y), p) && call_ensures(K::plus, (k, sum, p), r)
}

/// Every point has the score that is right for it.
pub open spec fn rightly_scored<K: Kernels>(
    k: &K,
    distance: Distance,
    query: Seq<Real>,
    points: Seq<PointV>,
    scores: Seq<Real>,
) -> bool {
    scores.len() == points.len() && forall|i: int|
        0 <= i < points.len() ==> right_score(k, distance, query, points[i].vector, #[trigger] scores[i])
}

/// Every point has the score that is right for it where there is no index.
pub open spec fn rightly_scanned<K: Kernels>(
    k: &K,
    distance: Distance,
    query: Seq<Real>,
    points: Seq<PointV>,
    scores: Seq<Real>,
) -> bool {
    scores.len() == points.len() && forall|i: int|
        0 <= i < points.len() ==> right_plain_score(k, distance, query, points[i].vector, #[trigger] scores[i])
}

/// A higher inner product scores higher, and a longer distance scores lower.
pub proof fn law_scores_follow_distance<K: Kernels>(
    k: &K,
    distance: Distance,
    query: Seq<Real>,
    vector: Seq<Real>,
    r: Real,
)
    ensures
        gives_score(k, distance, query, vector, r) ==> right_score(k, distance, query, vector, r),
        gives_plain_score(k, distance, query, vector, r) ==> right_plain_score(k, distance, query, vector, r),
{
    if gives_score(k, distance, query, vector, r) && distance is Euclidean {
        let d = choose|d: Real| #[trigger] gives_l2(k, query, vector, d) && r == d.opposite();
        assert(r.nan() == d.nan() && r.place() == -d.place());
    }
    if gives_plain_score(k, distance, query, vector, r) {
        if distance is Euclidean {
            let d = choose|d: Real| #[trigger] gives_l2(k, vector, query, d) && r == d.opposite();
            assert(r.nan() == d.nan() && r.place() == -d.place());
        }
        if distance is Dot {
            let sums = choose|sums: Seq<Real>| #[trigger] product_sums(k, vector, query, sums) && sums.last() == r;
            assert forall|i: int| 0 <= i < sums.len() - 1 implies adds_product(
                k,
                sums[i],
                vector[i],
                query[i],
                #[trigger] sums[i + 1],
            ) by {
                assert(gives_product_added(k, sums[i], vector[i], query[i], sums[i + 1]));
            }
            assert(adds_up_products(k, vector, query, sums));
        }
    }
}

// ---------------------------------------------------------------------------------------------
// Vector searches

/// A search of fewer than ten thousand points is exact: of all stored points that the filter
/// accepts, each with its right score, it returns the best, best first, as many as there are up
/// to the limit.
pub proof fn law_small_search_finds_best<K: Kernels>(
    k: &K,
    before: CollectionV,
    query: Seq<Real>,
    limit: usize,
    pass: spec_fn(PointV) -> bool,
    after: CollectionV,
    r: Seq<(PointV, Real)>,
)
    requires
        searches(k, before, query, limit, pass, after, r),
        before.points.len() < 10_000,
    ensures
        after == before,
        exists|scaled: Seq<Real>, scores: Seq<Real>| #[trigger]
            gives_normalized(k, query, scaled) && #[trigger] rightly_scored(
                k,
                before.config.distance,
                scaled,
                before.points.filter(pass),
                scores,
            ) && top(with_scores(before.points.filter(pass), scores), limit as nat, r),
{
    let scaled = choose|scaled: Seq<Real>| #[trigger]
        gives_normalized(k, query, scaled) && searches_scaled(k, before, query, scaled, limit, pass, after, r);
    let points = before.points.filter(pass);
    law_selected_are_accepted(before.points, pass);
    before.points.lemma_filter_len(pass);
    let scores = choose|scores: Seq<Real>| #[trigger]
        scores_by(k, before.config.distance, scaled, selected(before.points, pass), scores) && takes_best(
            selected(before.points, pass),
            scores,
            limit as nat,
            r,
        );
    law_best_are_taken(points, scores, limit as nat, r);
    assert forall|i: int| 0 <= i < points.len() implies right_score(
        k,
        before.config.distance,
        scaled,
        points[i].vector,
        #[trigger] scores[i],
    ) by {
        law_scores_follow_distance(k, before.config.distance, scaled, points[i].vector, scores[i]);
    }
    assert(rightly_scored(k, before.config.distance, scaled, points, scores));
}

/// A search of a large collection without an index is exact too.
pub proof fn law_scan_finds_best<K: Kernels>(
    k: &K,
    before: CollectionV,
    query: Seq<Real>,
    limit: usize,
    pass: spec_fn(PointV) -> bool,
    after: CollectionV,
    r: Seq<(PointV, Real)>,
)
    requires
        searches(k, before, query, limit, pass, after, r),
        10_000 <= before.points.len() <= usize::MAX,
        before.index is None,
    ensures
        after == before,
        exists|scores: Seq<Real>| #[trigger]
            rightly_scanned(k, before.config.distance, query, before.points.filter(pass), scores) && top(
                with_scores(before.points.filter(pass), scores),
                limit as nat,
                r,
            ),
{
    let scaled = choose|scaled: Seq<Real>| #[trigger]
        gives_normalized(k, query, scaled) && searches_scaled(k, before, query, scaled, limit, pass, after, r);
    let points = before.points.filter(pass);
    law_selected_are_accepted(before.points, pass);
    before.points.lemma_filter_len(pass);
    let scores = choose|scores: Seq<Real>| #[trigger]
        plainly_scores(k, before.config.distance, query, selected(before.points, pass), scores) && takes_best(
            selected(before.points, pass),
            scores,
            limit as nat,
            r,
        );
    law_best_are_taken(points, scores, limit as nat, r);
    assert forall|i: int| 0 <= i < points.len() implies right_plain_score(
        k,
        before.config.distance,
        query,
        points[i].vector,
        #[trigger] scores[i],
    ) by {
        law_scores_follow_distance(k, before.config.distance, query, points[i].vector, scores[i]);
    }
    assert(rightly_scanned(k, before.config.distance, query, points, scores));
}

/// Filtering what was found loses nothing that the filter accepts, keeps nothing that it rejects
/// and keeps the order: what comes out is what was found, without what is rejected.
pub proof fn law_filtering_loses_nothing(found: Seq<(PointV, Real)>, pass: spec_fn(PointV) -> bool)
    ensures
        retained(found, pass) == found.filter(|h: (PointV, Real)| pass(h.0)),
        forall|i: int| 0 <= i < found.len() && pass((#[trigger] found[i]).0) ==> retained(found, pass).contains(found[i]),
        forall|j: int| 0 <= j < retained(found, pass).len() ==> pass((#[trigger] retained(found, pass)[j]).0),
    decreases found.len(),
{
    reveal(Seq::filter);
    let accepted = |h: (PointV, Real)| pass(h.0);
    if found.len() > 0 {
        law_filtering_loses_nothing(found.drop_last(), pass);
    } else {
        assert(retained(found, pass) =~= found.filter(accepted));
    }
    assert forall|i: int| 0 <= i < found.len() && pass((#[trigger] found[i]).0) implies retained(
        found,
        pass,
    ).contains(found[i]) by {
        assert(accepted(found[i]));
        found.lemma_filter_contains(accepted, i);
    }
    assert forall|j: int| 0 <= j < retained(found, pass).len() implies pass((#[trigger] retained(found, pass)[j]).0) by {
        found.lemma_filter_pred(accepted, j);
    }
}

/// A search of a large collection through its index returns everything that the index finds and
/// the filter accepts, in the order found, and nothing else.
pub proof fn law_index_search_loses_nothing<K: Kernels>(
    k: &K,
    before: CollectionV,
    query: Seq<Real>,
    limit: usize,
    pass: spec_fn(PointV) -> bool,
    after: CollectionV,
    r: Seq<(PointV, Real)>,
)
    requires
        searches(k, before, query, limit, pass, after, r),
        before.points.len() >= 10_000,
        before.index is Some,
    ensures
        after.index is Some,
        exists|scaled: Seq<Real>, found: Seq<(PointV, Real)>|
            {
                &&& #[trigger] gives_normalized(k, query, scaled)
                &&& #[trigger] index_gives(k, after.index->0, scaled, limit, None, found)
                &&& r == found.filter(|h: (PointV, Real)| pass(h.0))
                &&& forall|i: int| 0 <= i < found.len() && pass((#[trigger] found[i]).0) ==> r.contains(found[i])
                &&& forall|j: int| 0 <= j < r.len() ==> pass((#[trigger] r[j]).0) && found.contains(r[j])
            },
{
    let scaled = choose|scaled: Seq<Real>| #[trigger]
        gives_normalized(k, query, scaled) && searches_scaled(k, before, query, scaled, limit, pass, after, r);
    let found = choose|found: Seq<(PointV, Real)>| #[trigger]
        index_gives(k, after.index->0, scaled, limit, None, found) && r == retained(found, pass);
    law_filtering_loses_nothing(found, pass);
    lemma_filter_takes_members(found, |h: (PointV, Real)| pass(h.0));
}

/// A search of a large collection gets its index ready first: it is built, from all points if it was
/// not built before, and nothing else changes.
pub proof fn law_search_warms<K: Kernels>(
    k: &K,
    before: CollectionV,
    query: Seq<Real>,
    limit: usize,
    pass: spec_fn(PointV) -> bool,
    after: CollectionV,
    r: Seq<(PointV, Real)>,
)
    requires
        searches(k, before, query, limit, pass, after, r),
        before.points.len() >= 10_000,
        before.index is Some,
    ensures
        after.built,
        !before.built ==> points_of(after.index->0) == before.points,
        before.built ==> after == before,
        after == (CollectionV { index: after.index, built: true, ..before }),
{
    let scaled = choose|scaled: Seq<Real>| #[trigger]
        gives_normalized(k, query, scaled) && searches_scaled(k, before, query, scaled, limit, pass, after, r);
    law_built_index_holds_all(k, before, after);
}

/// What a filter keeps of a list was in the list.
pub proof fn lemma_filter_takes_members<T>(s: Seq<T>, keep: spec_fn(T) -> bool)
    ensures
        forall|j: int| 0 <= j < s.filter(keep).len() ==> s.contains(#[trigger] s.filter(keep)[j]) && keep(s.filter(keep)[j]),
        s.filter(keep).len() <= s.len(),
    decreases s.len(),
{
    reveal(Seq::filter);
    if s.len() > 0 {
        let rest = s.drop_last();
        lemma_filter_takes_members(rest, keep);
        let out = s.filter(keep);
        assert forall|j: int| 0 <= j < out.len() implies s.contains(#[trigger] out[j]) && keep(out[j]) by {
            if j < rest.filter(keep).len() {
                assert(out[j] == rest.filter(keep)[j]);
                assert(rest.contains(out[j]));
                let i = choose|i: int| 0 <= i < rest.len() && rest[i] == out[j];
                assert(s[i] == out[j]);
            } else {
                assert(s[s.len() - 1] == out[j]);
            }
        }
    }
}

// ---------------------------------------------------------------------------------------------
// The index

/// The distance that an index goes by: one minus the inner product.
pub open spec fn one_minus_dot<K: Kernels>(k: &K, query: Seq<Real>, vector: Seq<Real>, d: Real) -> bool {
    exists|p: Real| #[trigger] gives_dot(k, query, vector, p) && call_ensures(K::minus, (k, Real { bits: 0x3f80_0000 }, p), d)
}

/// `r` is what stands at `places` in an index, none twice, the nearest first; a hit scores one
/// minus its distance.
pub open spec fn nearest_at<K: Kernels>(
    k: &K,
    nodes: Seq<HnswNodeV>,
    query: Seq<Real>,
    places: Seq<usize>,
    dists: Seq<Real>,
    r: Seq<(PointV, Real)>,
) -> bool {
    &&& places.len() == r.len()
    &&& dists.len() == r.len()
    &&& forall|j: int|
        0 <= j < r.len() ==> #[trigger] places[j] < nodes.len() && r[j].0 == nodes[places[j] as int].point
            && one_minus_dot(k, query, nodes[places[j] as int].point.vector, dists[j]) && call_ensures(
            K::minus,
            (k, Real { bits: 0x3f80_0000 }, dists[j]),
            r[j].1,
        )
    &&& forall|i: int, j: int| 0 <= i < j < r.len() ==> #[trigger] places[i] != #[trigger] places[j]
    &&& forall|i: int, j: int|
        0 <= i < j < r.len() ==> ((#[trigger] dists[i]).nan() ==> (#[trigger] dists[j]).nan()) && !dists[j].less(dists[i])
}

/// A search of an index returns nodes of it, none twice, the nearest first, at most as many as
/// asked for and at least one if there is one; if it returns fewer than asked for, no node that
/// its links lead to is missing.
pub proof fn law_index_search_finds<K: Kernels>(
    k: &K,
    nodes: Seq<HnswNodeV>,
    query: Seq<Real>,
    count: usize,
    ef: Option<usize>,
    r: Seq<(PointV, Real)>,
)
    requires
        index_gives(k, nodes, query, count, ef, r),
    ensures
        r.len() <= count,
        nodes.len() == 0 ==> r.len() == 0,
        nodes.len() > 0 && count > 0 ==> r.len() > 0,
        exists|places: Seq<usize>, dists: Seq<Real>|
            {
                &&& #[trigger] nearest_at(k, nodes, query, places, dists, r)
                &&& nodes.len() > 0 && r.len() < count ==> forall|node: usize| #[trigger]
                    reachable(nodes, 0, 0, node) ==> places.contains(node)
            },
{
    if nodes.len() == 0 {
        let places: Seq<usize> = Seq::empty();
        let dists: Seq<Real> = Seq::empty();
        assert(nearest_at(k, nodes, query, places, dists, r));
    } else {
        let width = search_width(count, ef);
        let found = choose|found: Seq<(usize, Real)>| #[trigger]
            finds(k, nodes, query, 0, width, 0, found) && picks_points(k, nodes, found, count, r);
        law_found_sorted(k, nodes, query, 0, width, 0, found);
        let places = Seq::new(r.len(), |j: int| found[j].0);
        let dists = Seq::new(r.len(), |j: int| found[j].1);
        assert forall|j: int| 0 <= j < r.len() implies #[trigger] places[j] < nodes.len() && r[j].0
            == nodes[places[j] as int].point && one_minus_dot(
            k,
            query,
            nodes[places[j] as int].point.vector,
            dists[j],
        ) && call_ensures(K::minus, (k, Real { bits: 0x3f80_0000 }, dists[j]), r[j].1) by {
            assert(found[j].0 < nodes.len());
            assert(r[j].0 == nodes[found[j].0 as int].point);
        }
        assert forall|i: int, j: int| 0 <= i < j < r.len() implies #[trigger] places[i] != #[trigger] places[j] by {
            assert(found[i].0 != found[j].0);
        }
        assert forall|i: int, j: int| 0 <= i < j < r.len() implies ((#[trigger] dists[i]).nan() ==> (
        #[trigger] dists[j]).nan()) && !dists[j].less(dists[i]) by {
            assert(found[i].1.near_rank() <= found[j].1.near_rank());
        }
        assert(nearest_at(k, nodes, query, places, dists, r));
        if r.len() < count {
            assert forall|node: usize| #[trigger] reachable(nodes, 0, 0, node) implies places.contains(node) by {
                law_search_exact_with_room(k, nodes, query, 0, width, 0, found, node);
                assert(has_seen(found, node));
                let q = choose|q: int| 0 <= q < found.len() && (#[trigger] found[q]).0 == node;
                assert(places[q] == node);
            }
        }
    }
}

/// A search of an index looks at more nodes than it returns: at sixteen or more, and at half as
/// many again as asked for, unless it is told at how many; never at fewer than it returns.
pub proof fn law_index_looks_further(count: usize, ef: Option<usize>)
    ensures
        search_width(count, ef) >= count,
        search_width(count, None) >= 16,
        16 <= count + count / 2 <= usize::MAX ==> search_width(count, None) == count + count / 2,
        count + count / 2 <= 16 ==> search_width(count, None) == 16,
        ef matches Some(e) ==> e >= count ==> search_width(count, ef) == e,
        ef matches Some(e) ==> e <= count ==> search_width(count, ef) == count,
{
}

proof fn lemma_built_so_far<K: Kernels>(k: &K, states: Seq<Seq<HnswNodeV>>, points: Seq<PointV>, n: int)
    requires
        builds_through(k, states, points),
        0 <= n <= points.len(),
    ensures
        points_of(states[n]) == points.take(n),
    decreases n,
{
    if n > 0 {
        lemma_built_so_far(k, states, points, n - 1);
        assert(builds_next(k, states, points, n - 1));
        let layer = choose|layer: nat|
            layer < MAX_LAYERS && #[trigger] inserts(
                k,
                states[n - 1],
                points[n - 1],
                layer,
                MAX_CONNECTIONS,
                states[n],
            );
        law_insert_adds_point(k, states[n - 1], points[n - 1], layer, MAX_CONNECTIONS, states[n]);
        assert(points.take(n) =~= points.take(n - 1).push(points[n - 1]));
    } else {
        assert(points_of(states[0]) =~= points.take(0));
    }
}

/// An index that is built holds all points of the collection, in their order; getting it ready
/// changes nothing else, and does nothing if it was built.
pub proof fn law_built_index_holds_all<K: Kernels>(k: &K, before: CollectionV, after: CollectionV)
    requires
        warms(k, before, after),
    ensures
        after == (CollectionV { index: after.index, built: after.built, ..before }),
        before.built || before.index is None ==> after == before,
        before.index is Some && before.points.len() > 0 ==> after.built,
        before.index is Some && !before.built && before.points.len() > 0 ==> after.index is Some && points_of(
            after.index->0,
        ) == before.points,
{
    if before.index is Some && !before.built && before.points.len() > 0 {
        let states = choose|states: Seq<Seq<HnswNodeV>>| #[trigger]
            builds_through(k, states, before.points) && states.last() == after.index->0;
        lemma_built_so_far(k, states, before.points, before.points.len() as int);
        assert(before.points.take(before.points.len() as int) =~= before.points);
    }
}

// ---------------------------------------------------------------------------------------------
// Multivectors

/// How a vector of the query scores a vector of a document.
pub open spec fn right_row_score<K: Kernels>(k: &K, distance: Distance, q: Seq<Real>, d: Seq<Real>, r: Real) -> bool {
    match distance {
        Distance::Cosine => gives_cosine(k, q, d, r),
        Distance::Dot => gives_dot(k, q, d, r),
        Distance::Euclidean => exists|x: Real| #[trigger]
            gives_l2(k, q, d, x) && r.nan() == x.nan() && r.place() == -x.place(),
    }
}

/// `best` is the best score that a vector of the query has with any vector of a document, or minus
/// infinity where none is a number.
pub open spec fn best_of_rows<K: Kernels>(
    k: &K,
    distance: Distance,
    q: Seq<Real>,
    document: Seq<Seq<Real>>,
    scores: Seq<Real>,
    best: Real,
) -> bool {
    &&& scores.len() == document.len()
    &&& forall|j: int| 0 <= j < document.len() ==> right_row_score(k, distance, q, document[j], #[trigger] scores[j])
    &&& forall|j: int| 0 <= j < document.len() ==> !best.less(#[trigger] scores[j])
    &&& !best.nan()
    &&& best.bits == 0xff80_0000 || scores.contains(best)
}

/// The sum, from zero on, of what every vector of the query scores at best.
pub open spec fn sums_best_rows<K: Kernels>(
    k: &K,
    distance: Distance,
    query: Seq<Seq<Real>>,
    document: Seq<Seq<Real>>,
    bests: Seq<Real>,
    sums: Seq<Real>,
) -> bool {
    &&& bests.len() == query.len()
    &&& sums.len() == query.len() + 1
    &&& sums[0].bits == 0
    &&& forall|i: int|
        0 <= i < query.len() ==> call_ensures(K::plus, (k, sums[i], #[trigger] bests[i]), sums[i + 1]) && exists|
            scores: Seq<Real>,
        | #[trigger]
            best_of_rows(k, distance, query[i], document, scores, bests[i])
}

/// The similarity of two multivectors: every vector of the query counts with its best score among
/// all vectors of the document.
pub open spec fn right_max_sim<K: Kernels>(
    k: &K,
    distance: Distance,
    query: Seq<Seq<Real>>,
    document: Seq<Seq<Real>>,
    r: Real,
) -> bool {
    exists|bests: Seq<Real>, sums: Seq<Real>| #[trigger]
        sums_best_rows(k, distance, query, document, bests, sums) && r == sums[query.len() as int]
}

/// Every vector of a query counts in the similarity of multivectors, with the best that it has.
pub proof fn law_every_row_counts<K: Kernels>(
    k: &K,
    distance: Distance,
    query: Seq<Seq<Real>>,
    document: Seq<Seq<Real>>,
    r: Real,
)
    requires
        gives_max_sim(k, distance, query, document, r),
    ensures
        right_max_sim(k, distance, query, document, r),
{
    let sums = choose|sums: Seq<Real>| #[trigger] best_sums(k, distance, query, document, sums) && r == sums.last();
    let bests = Seq::new(
        query.len(),
        |i: int|
            choose|best: Real|
                gives_best_row(k, distance, query[i], document, best) && #[trigger] call_ensures(
                    K::plus,
                    (k, sums[i], best),
                    sums[i + 1],
                ),
    );
    assert forall|i: int| 0 <= i < query.len() implies call_ensures(K::plus, (k, sums[i], #[trigger] bests[i]), sums[i
        + 1]) && exists|scores: Seq<Real>| #[trigger]
        best_of_rows(k, distance, query[i], document, scores, bests[i]) by {
        assert(adds_best_row(k, distance, query[i], document, sums[i], sums[i + 1]));
        let best = bests[i];
        assert(gives_best_row(k, distance, query[i], document, best));
        let scores = choose|scores: Seq<Real>| #[trigger]
            scores_rows(k, distance, query[i], document, scores) && best == highest(scores);
        assert forall|j: int| 0 <= j < document.len() implies right_row_score(
            k,
            distance,
            query[i],
            document[j],
            #[trigger] scores[j],
        ) && !best.less(scores[j]) by {
            law_highest(scores, j);
            assert(gives_row_score(k, distance, query[i], document[j], scores[j]));
            if distance is Euclidean {
                let x = choose|x: Real| #[trigger] gives_l2(k, query[i], document[j], x) && scores[j] == x.opposite();
                assert(scores[j].nan() == x.nan() && scores[j].place() == -x.place());
            }
        }
        if scores.len() > 0 {
            law_highest(scores, 0);
        }
        assert(best_of_rows(k, distance, query[i], document, scores, best));
    }
    assert(sums_best_rows(k, distance, query, document, bests, sums));
}

/// The vectors that a point is searched by: those of its multivector, else its one vector, else
/// one of zeros.
pub open spec fn searched_rows(point: PointV, dim: nat, rows: Seq<Seq<Real>>) -> bool {
    if point.multivector is Some {
        Some(rows) == point.multivector
    } else {
        rows.len() == 1 && if point.vector.len() > 0 {
            rows[0] == point.vector
        } else {
            rows[0].len() == dim && forall|i: int| 0 <= i < dim ==> (#[trigger] rows[0][i]).bits == 0
        }
    }
}

/// Every point has the similarity of its vectors as its score.
pub open spec fn rightly_compared<K: Kernels>(
    k: &K,
    distance: Distance,
    query: Seq<Seq<Real>>,
    points: Seq<PointV>,
    documents: Seq<Seq<Seq<Real>>>,
    scores: Seq<Real>,
) -> bool {
    &&& scores.len() == points.len()
    &&& documents.len() == points.len()
    &&& forall|i: int|
        0 <= i < points.len() ==> searched_rows(points[i], query[0].len(), #[trigger] documents[i]) && right_max_sim(
            k,
            distance,
            query,
            documents[i],
            scores[i],
        )
}

/// A multivector search is exact: of all stored points that the filter accepts it returns the
/// best, best first, as many as there are up to the limit.
pub proof fn law_multivector_search_finds_best<K: Kernels>(
    k: &K,
    distance: Distance,
    points: Seq<PointV>,
    query: Seq<Seq<Real>>,
    limit: usize,
    pass: spec_fn(PointV) -> bool,
    r: Seq<(PointV, Real)>,
)
    requires
        multivector_gives(k, distance, points, query, limit, pass, r),
        points.len() <= usize::MAX,
    ensures
        exists|documents: Seq<Seq<Seq<Real>>>, scores: Seq<Real>| #[trigger]
            rightly_compared(k, distance, query, points.filter(pass), documents, scores) && top(
                with_scores(points.filter(pass), scores),
                limit as nat,
                r,
            ),
{
    law_selected_are_accepted(points, pass);
    points.lemma_filter_len(pass);
    let chosen = points.filter(pass);
    let scores = choose|scores: Seq<Real>| #[trigger]
        scores_multi(k, distance, query, selected(points, pass), scores) && takes_best(
            selected(points, pass),
            scores,
            limit as nat,
            r,
        );
    law_best_are_taken(chosen, scores, limit as nat, r);
    let documents = Seq::new(chosen.len(), |i: int| document_rows(chosen[i], query[0].len()));
    assert forall|i: int| 0 <= i < chosen.len() implies searched_rows(
        chosen[i],
        query[0].len(),
        #[trigger] documents[i],
    ) && right_max_sim(k, distance, query, documents[i], scores[i]) by {
        assert(gives_max_sim(k, distance, query, document_rows(chosen[i], query[0].len()), scores[i]));
        law_every_row_counts(k, distance, query, documents[i], scores[i]);
    }
    assert(rightly_compared(k, distance, query, chosen, documents, scores));
}

// ---------------------------------------------------------------------------------------------
// Sparse vectors

/// A number above zero.
pub open spec fn positive(x: Real) -> bool {
    0 < x.bits <= 0x7f80_0000
}

/// The sparse vector of a point under a name, where it has one, gives the product with the query.
pub open spec fn sparse_products<K: Kernels>(
    k: &K,
    query: SparseVectorV,
    name: Seq<char>,
    points: Seq<PointV>,
    pass: spec_fn(PointV) -> bool,
    dots: Seq<Real>,
) -> bool {
    dots.len() == points.len() && forall|i: int|
        0 <= i < points.len() && pass(points[i]) && lookup(points[i].sparse_vectors, name) is Some ==> gives_sparse_dot(
            k,
            query,
            lookup(points[i].sparse_vectors, name)->0,
            #[trigger] dots[i],
        )
}

/// The points that the filter accepts, that have a sparse vector under a name and whose product
/// with the query is above zero, each with the product.
pub open spec fn sparse_matches(
    name: Seq<char>,
    points: Seq<PointV>,
    pass: spec_fn(PointV) -> bool,
    dots: Seq<Real>,
) -> Seq<(PointV, Real)> {
    with_scores(points, dots).filter(
        |h: (PointV, Real)| pass(h.0) && lookup(h.0.sparse_vectors, name) is Some && positive(h.1),
    )
}

/// The products with all points, from those with the points that are scored.
proof fn lemma_sparse_products<K: Kernels>(
    k: &K,
    query: SparseVectorV,
    name: Seq<char>,
    points: Seq<PointV>,
    pass: spec_fn(PointV) -> bool,
    scores: Seq<Real>,
) -> (dots: Seq<Real>)
    requires
        scores_sparse(k, query, name, with_sparse(selected(points, pass), name), scores),
    ensures
        sparse_products(k, query, name, points, pass, dots),
        sparse_matches(name, points, pass, dots) == with_scores(
            scoring(with_sparse(selected(points, pass), name), scores),
            above_zero(scores),
        ),
        scoring(with_sparse(selected(points, pass), name), scores).len() == above_zero(scores).len(),
        above_zero(scores).len() <= points.len(),
    decreases points.len(),
{
    reveal(Seq::filter);
    let keep = |h: (PointV, Real)| pass(h.0) && lookup(h.0.sparse_vectors, name) is Some && positive(h.1);
    if points.len() == 0 {
        let dots: Seq<Real> = Seq::empty();
        assert(with_scores(points, dots).filter(keep) =~= with_scores(
            scoring(with_sparse(selected(points, pass), name), scores),
            above_zero(scores),
        ));
        dots
    } else {
        let last = points.last();
        let rest = points.drop_last();
        let scored = pass(last) && lookup(last.sparse_vectors, name) is Some;
        if scored {
            let chosen = selected(rest, pass).push(last);
            assert(chosen.drop_last() =~= selected(rest, pass));
            let all = with_sparse(selected(points, pass), name);
            let fewer = with_sparse(selected(rest, pass), name);
            assert(all == fewer.push(last));
            assert(all.drop_last() =~= fewer);
            let earlier = scores.drop_last();
            assert forall|i: int| 0 <= i < fewer.len() implies gives_sparse_dot(
                k,
                query,
                lookup(fewer[i].sparse_vectors, name)->0,
                #[trigger] earlier[i],
            ) by {
                assert(fewer[i] == all[i] && earlier[i] == scores[i]);
            }
            let before = lemma_sparse_products(k, query, name, rest, pass, earlier);
            let dots = before.push(scores.last());
            assert(gives_sparse_dot(k, query, lookup(all[all.len() - 1].sparse_vectors, name)->0, scores[all.len() - 1]));
            assert forall|i: int|
                0 <= i < points.len() && pass(points[i]) && lookup(points[i].sparse_vectors, name) is Some implies gives_sparse_dot(
                k,
                query,
                lookup(points[i].sparse_vectors, name)->0,
                #[trigger] dots[i],
            ) by {
                if i < rest.len() {
                    assert(rest[i] == points[i] && before[i] == dots[i]);
                }
            }
            assert(with_scores(points, dots).drop_last() =~= with_scores(rest, before));
            assert(with_scores(points, dots).last() == (last, scores.last()));
            assert(Real { bits: 0 }.less(scores.last()) == positive(scores.last()));
            assert(with_scores(points, dots).filter(keep) =~= with_scores(scoring(all, scores), above_zero(scores)));
            dots
        } else {
            assert(with_sparse(selected(points, pass), name) =~= with_sparse(selected(rest, pass), name)) by {
                if pass(last) {
                    let chosen = selected(rest, pass).push(last);
                    assert(chosen.drop_last() =~= selected(rest, pass));
                }
            }
            let before = lemma_sparse_products(k, query, name, rest, pass, scores);
            let dots = before.push(Real { bits: 0 });
            assert forall|i: int|
                0 <= i < points.len() && pass(points[i]) && lookup(points[i].sparse_vectors, name) is Some implies gives_sparse_dot(
                k,
                query,
                lookup(points[i].sparse_vectors, name)->0,
                #[trigger] dots[i],
            ) by {
                assert(rest[i] == points[i] && before[i] == dots[i]);
            }
            assert(with_scores(points, dots).drop_last() =~= with_scores(rest, before));
            assert(with_scores(points, dots).last() == (last, Real { bits: 0 }));
            dots
        }
    }
}

/// A sparse search leaves out no point that scores above zero: of all stored points that the
/// filter accepts, that have the named sparse vector and whose product with the query is above
/// zero it returns the best, best first, as many as there are up to the limit, and no other.
pub proof fn law_sparse_search_finds_best<K: Kernels>(
    k: &K,
    points: Seq<PointV>,
    query: SparseVectorV,
    name: Seq<char>,
    limit: usize,
    pass: spec_fn(PointV) -> bool,
    r: Seq<(PointV, Real)>,
)
    requires
        sparse_gives(k, points, query, name, limit, pass, r),
        points.len() <= usize::MAX,
    ensures
        exists|dots: Seq<Real>|
            {
                &&& #[trigger] sparse_products(k, query, name, points, pass, dots)
                &&& top(sparse_matches(name, points, pass, dots), limit as nat, r)
                &&& r.len() == if limit <= sparse_matches(name, points, pass, dots).len() {
                    limit as nat
                } else {
                    sparse_matches(name, points, pass, dots).len()
                }
            },
        forall|j: int|
            0 <= j < r.len() ==> pass((#[trigger] r[j]).0) && lookup(r[j].0.sparse_vectors, name) is Some && positive(
                r[j].1,
            ),
{
    let scores = choose|scores: Seq<Real>| #[trigger]
        scores_sparse(k, query, name, with_sparse(selected(points, pass), name), scores) && takes_best(
            scoring(with_sparse(selected(points, pass), name), scores),
            above_zero(scores),
            limit as nat,
            r,
        );
    let dots = lemma_sparse_products(k, query, name, points, pass, scores);
    let all = sparse_matches(name, points, pass, dots);
    law_best_are_taken(
        scoring(with_sparse(selected(points, pass), name), scores),
        above_zero(scores),
        limit as nat,
        r,
    );
    let places = choose|places: Seq<int>| #[trigger] top_at(all, limit as nat, places, r);
    lemma_filter_takes_members(
        with_scores(points, dots),
        |h: (PointV, Real)| pass(h.0) && lookup(h.0.sparse_vectors, name) is Some && positive(h.1),
    );
    assert forall|j: int| 0 <= j < r.len() implies pass((#[trigger] r[j]).0) && lookup(r[j].0.sparse_vectors, name) is Some
        && positive(r[j].1) by {
        assert(r[j] == all[places[j]]);
    }
}

} // verus!
