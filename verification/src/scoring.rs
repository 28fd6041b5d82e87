//! Scoring points against a query and taking the best.

use rayon::iter::IntoParallelIterator;
use rayon::iter::ParallelIterator;
use vstd::prelude::*;
use crate::config::Distance;
use crate::entries::lookup;
use crate::filter::Filter;
use crate::hnsw::scored_of;
use crate::ieee::Real;
use crate::kernels::{gives_plain_score, gives_score, plain_score, score, zero, Kernels};
use crate::order::{leads, lemma_take_leads, ranked, sort_order};
use crate::point::{copy_reals, MultiVector, Point, PointV, SparseVector, SparseVectorV};
use crate::similarity::{gives_max_sim, gives_sparse_dot, max_sim, sparse_dot};
use crate::store::points_view;

verus! {

/// The ranks of scores, the best first.
pub open spec fn best_ranks(scores: Seq<Real>) -> Seq<i64> {
    Seq::new(scores.len(), |i: int| scores[i].best_rank() as i64)
}

/// Where the best scores stand, best first, at most `limit` of them.
pub fn best_of(scores: &Vec<Real>, limit: usize) -> (r: Vec<usize>)
    ensures
        leads(best_ranks(scores@), limit as nat, r@),
{
    let mut ranks: Vec<i64> = Vec::new();
    let mut i: usize = 0;
    while i < scores.len()
        invariant
            i <= scores@.len(),
            ranks@.len() == i,
            forall|j: int| 0 <= j < i ==> #[trigger] ranks@[j] == scores@[j].best_rank(),
        decreases scores@.len() - i,
    {
        ranks.push(scores[i].rank_best());
        i += 1;
    }
    assert(ranks@ =~= best_ranks(scores@));
    let mut order = sort_order(&ranks);
    proof {
        lemma_take_leads(ranks@, order@, limit as nat);
    }
    if order.len() > limit {
        order.truncate(limit);
    }
    assert(order@ =~= order@.take(order@.len() as int));
    order
}

/// `r` are the points with the best scores, best first, at most `limit` of them; of equal scores
/// the earlier point comes first.
pub open spec fn takes_best(points: Seq<PointV>, scores: Seq<Real>, limit: nat, r: Seq<(PointV, Real)>) -> bool {
    &&& scores.len() == points.len()
    &&& exists|order: Seq<usize>| #[trigger]
        leads(best_ranks(scores), limit, order) && r == Seq::new(
            order.len(),
            |j: int| (points[order[j] as int], scores[order[j] as int]),
        )
}

/// Points are returned best first.
pub proof fn law_best_first(points: Seq<PointV>, scores: Seq<Real>, limit: nat, r: Seq<(PointV, Real)>)
    requires
        takes_best(points, scores, limit, r),
    ensures
        r.len() == if limit <= points.len() {
            limit
        } else {
            points.len()
        },
        forall|i: int, j: int|
            0 <= i < j < r.len() ==> (#[trigger] r[i]).1.best_rank() <= (#[trigger] r[j]).1.best_rank(),
        forall|j: int| 0 <= j < r.len() ==> points.contains((#[trigger] r[j]).0),
{
    let order = choose|order: Seq<usize>| #[trigger]
        leads(best_ranks(scores), limit, order) && r == Seq::new(
            order.len(),
            |j: int| (points[order[j] as int], scores[order[j] as int]),
        );
    assert forall|i: int, j: int| 0 <= i < j < r.len() implies (#[trigger] r[i]).1.best_rank() <= (
    #[trigger] r[j]).1.best_rank() by {
        assert(ranked(best_ranks(scores), order[i] as int).precedes(
            ranked(best_ranks(scores), order[j] as int),
        ));
    }
    assert forall|j: int| 0 <= j < r.len() implies points.contains((#[trigger] r[j]).0) by {
        assert(points[order[j] as int] == r[j].0);
    }
}

/// A point that is not returned, though there were scores for it, scores no better than any that
/// is.
pub proof fn law_best_of_all(points: Seq<PointV>, scores: Seq<Real>, limit: nat, r: Seq<(PointV, Real)>, i: int, j: int)
    requires
        takes_best(points, scores, limit, r),
        0 <= i < points.len(),
        i <= usize::MAX,
        0 <= j < r.len(),
        !r.contains((points[i], scores[i])),
    ensures
        r[j].1.best_rank() <= scores[i].best_rank(),
{
    let order = choose|order: Seq<usize>| #[trigger]
        leads(best_ranks(scores), limit, order) && r == Seq::new(
            order.len(),
            |j: int| (points[order[j] as int], scores[order[j] as int]),
        );
    assert(!order.contains(i as usize)) by {
        if order.contains(i as usize) {
            let m = choose|m: int| 0 <= m < order.len() && order[m] == i as usize;
            assert(r[m] == (points[i], scores[i]));
        }
    }
    assert(ranked(best_ranks(scores), order[j] as int).precedes(
        ranked(best_ranks(scores), i),
    ));
}

/// Whether a search with a filter, or without one, may return a point.
pub open spec fn lets_through<F: Filter>(filter: Option<&F>, point: PointV) -> bool {
    match filter {
        Some(f) => f.accepts(point),
        None => true,
    }
}

/// What a filter lets through, as a predicate.
pub open spec fn pass_of<F: Filter>(filter: Option<&F>) -> spec_fn(PointV) -> bool {
    |p: PointV| lets_through(filter, p)
}

/// The points that a filter lets through, in their order.
pub open spec fn selected(points: Seq<PointV>, pass: spec_fn(PointV) -> bool) -> Seq<PointV>
    decreases points.len(),
{
    if points.len() == 0 {
        Seq::empty()
    } else if pass(points.last()) {
        selected(points.drop_last(), pass).push(points.last())
    } else {
        selected(points.drop_last(), pass)
    }
}

pub fn passes_filter<F: Filter>(filter: Option<&F>, point: &Point) -> (r: bool)
    ensures
        r == lets_through(filter, point@),
{
    match filter {
        Some(f) => f.matches(point),
        None => true,
    }
}

/// The points at some places.
pub open spec fn points_at(points: Seq<PointV>, places: Seq<usize>) -> Seq<PointV> {
    Seq::new(places.len(), |j: int| points[places[j] as int])
}

/// Where the points stand that a filter lets through.
pub fn select<F: Filter>(points: &Vec<Point>, filter: Option<&F>) -> (r: Vec<usize>)
    ensures
        points_at(points_view(points@), r@) == selected(points_view(points@), pass_of(filter)),
        forall|j: int| 0 <= j < r@.len() ==> #[trigger] r@[j] < points@.len(),
{
    let mut r: Vec<usize> = Vec::new();
    let ghost all = points_view(points@);
    let mut i: usize = 0;
    assert(points_at(all, r@) =~= selected(all.take(0), pass_of(filter)));
    while i < points.len()
        invariant
            i <= points@.len(),
            all == points_view(points@),
            points_at(all, r@) == selected(all.take(i as int), pass_of(filter)),
            forall|j: int| 0 <= j < r@.len() ==> #[trigger] r@[j] < points@.len(),
        decreases points@.len() - i,
    {
        assert(all.take(i + 1).drop_last() =~= all.take(i as int));
        assert(all.take(i + 1).last() == all[i as int]);
        let ghost before = r@;
        if passes_filter(filter, &points[i]) {
            r.push(i);
            assert(points_at(all, r@) =~= points_at(all, before).push(all[i as int]));
        }
        i += 1;
    }
    assert(all.take(i as int) =~= all);
    r
}

/// Copies the best of the points at `places`.
pub fn take_best(points: &Vec<Point>, places: &Vec<usize>, scores: &Vec<Real>, limit: usize) -> (r: Vec<(Point, Real)>)
    requires
        scores@.len() == places@.len(),
        forall|j: int| 0 <= j < places@.len() ==> #[trigger] places@[j] < points@.len(),
    ensures
        takes_best(points_at(points_view(points@), places@), scores@, limit as nat, scored_of(r@)),
{
    let order = best_of(scores, limit);
    let ghost all = points_at(points_view(points@), places@);
    let mut r: Vec<(Point, Real)> = Vec::new();
    let mut j: usize = 0;
    while j < order.len()
        invariant
            j <= order@.len(),
            r@.len() == j,
            all == points_at(points_view(points@), places@),
            scores@.len() == places@.len(),
            forall|m: int| 0 <= m < places@.len() ==> #[trigger] places@[m] < points@.len(),
            leads(best_ranks(scores@), limit as nat, order@),
            forall|m: int|
                0 <= m < j ==> (#[trigger] r@[m]).0@ == all[order@[m] as int] && r@[m].1 == scores@[order@[m] as int],
            decreases order@.len() - j,
    {
        let at: usize = order[j];
        let p = points[places[at]].clone();
        assert(p@ == all[at as int]);
        r.push((p, scores[at]));
        j += 1;
    }
    assert(scored_of(r@) =~= Seq::new(
        order@.len(),
        |m: int| (all[order@[m] as int], scores@[order@[m] as int]),
    ));
    r
}

/// `rayon::iter::ParallelIterator::map` over the numbers below `n`, collected: `f` is called once
/// on each number, on several threads, and the results stand in the order of the numbers.
#[verifier::external_body]
fn par_map<F: Fn(usize) -> Real + Send + Sync>(n: usize, f: F) -> (r: Vec<Real>)
    requires
        forall|i: usize| i < n ==> call_requires(f, (i,)),
    ensures
        r@.len() == n,
        forall|i: usize| #![trigger r@[i as int]] i < n ==> call_ensures(f, (i,), r@[i as int]),
{
    (0..n).into_par_iter().map(f).collect()
}

/// With this many points or more, and no filter, they are scored on several threads.
pub const PARALLEL_THRESHOLD: usize = 10000;

/// What scoring every point against a query by its distance comes to.
pub open spec fn scores_by<K: Kernels>(
    k: &K,
    distance: Distance,
    query: Seq<Real>,
    points: Seq<PointV>,
    scores: Seq<Real>,
) -> bool {
    scores.len() == points.len() && forall|i: int|
        0 <= i < points.len() ==> gives_score(k, distance, query, points[i].vector, #[trigger] scores[i])
}

/// What a search through all points comes to: the best of those that the filter lets through.
pub open spec fn brute_force_gives<K: Kernels>(
    k: &K,
    distance: Distance,
    points: Seq<PointV>,
    query: Seq<Real>,
    limit: usize,
    pass: spec_fn(PointV) -> bool,
    r: Seq<(PointV, Real)>,
) -> bool {
    exists|scores: Seq<Real>| #[trigger]
        scores_by(k, distance, query, selected(points, pass), scores) && takes_best(
            selected(points, pass),
            scores,
            limit as nat,
            r,
        )
}

/// Scores the points at `places`.
fn score_all<K: Kernels>(
    k: &K,
    distance: Distance,
    query: &[Real],
    points: &Vec<Point>,
    places: &Vec<usize>,
    parallel: bool,
) -> (r: Vec<Real>)
    requires
        forall|j: int| 0 <= j < places@.len() ==> #[trigger] places@[j] < points@.len(),
    ensures
        scores_by(k, distance, query@, points_at(points_view(points@), places@), r@),
{
    let n: usize = places.len();
    let ghost all = points_at(points_view(points@), places@);
    if parallel {
        let f = |i: usize| -> (s: Real)
            requires
                i < n,
                n == places@.len(),
                forall|j: int| 0 <= j < places@.len() ==> #[trigger] places@[j] < points@.len(),
            ensures
                gives_score(k, distance, query@, points@[places@[i as int] as int]@.vector, s),
            { score(k, distance, query, points[places[i]].vector.as_slice()) };
        let r = par_map(n, f);
        assert forall|i: int| 0 <= i < all.len() implies gives_score(
            k,
            distance,
            query@,
            all[i].vector,
            #[trigger] r@[i],
        ) by {
            let u = i as usize;
            assert(call_ensures(f, (u,), r@[u as int]));
        }
        return r;
    }
    let mut r: Vec<Real> = Vec::new();
    let mut i: usize = 0;
    while i < n
        invariant
            i <= n,
            n == places@.len(),
            r@.len() == i,
            all == points_at(points_view(points@), places@),
            forall|j: int| 0 <= j < places@.len() ==> #[trigger] places@[j] < points@.len(),
            forall|j: int| 0 <= j < i ==> gives_score(k, distance, query@, all[j].vector, #[trigger] r@[j]),
        decreases n - i,
    {
        let s = score(k, distance, query, points[places[i]].vector.as_slice());
        assert(gives_score(k, distance, query@, all[i as int].vector, s));
        r.push(s);
        i += 1;
    }
    r
}

/// Fast brute-force search - optimal for small datasets
pub fn brute_force_search<K: Kernels, F: Filter>(
    k: &K,
    distance: Distance,
    points: &Vec<Point>,
    query: &[Real],
    limit: usize,
    filter: Option<&F>,
) -> (r: Vec<(Point, Real)>)
    ensures
        brute_force_gives(k, distance, points_view(points@), query@, limit, pass_of(filter), scored_of(r@)),
{
    let places = select(points, filter);
    let parallel = points.len() >= PARALLEL_THRESHOLD && filter.is_none();
    let scores = score_all(k, distance, query, points, &places, parallel);
    take_best(points, &places, &scores, limit)
}

/// What scoring every point against a query as it is comes to.
pub open spec fn plainly_scores<K: Kernels>(
    k: &K,
    distance: Distance,
    query: Seq<Real>,
    points: Seq<PointV>,
    scores: Seq<Real>,
) -> bool {
    scores.len() == points.len() && forall|i: int|
        0 <= i < points.len() ==> gives_plain_score(k, distance, query, points[i].vector, #[trigger] scores[i])
}

/// What a search through all points with the query as it is comes to.
pub open spec fn scan_gives<K: Kernels>(
    k: &K,
    distance: Distance,
    points: Seq<PointV>,
    query: Seq<Real>,
    limit: usize,
    pass: spec_fn(PointV) -> bool,
    r: Seq<(PointV, Real)>,
) -> bool {
    exists|scores: Seq<Real>| #[trigger]
        plainly_scores(k, distance, query, selected(points, pass), scores) && takes_best(
            selected(points, pass),
            scores,
            limit as nat,
            r,
        )
}

/// Search through all points with the query as it is.
pub fn scan<K: Kernels, F: Filter>(
    k: &K,
    distance: Distance,
    points: &Vec<Point>,
    query: &[Real],
    limit: usize,
    filter: Option<&F>,
) -> (r: Vec<(Point, Real)>)
    ensures
        scan_gives(k, distance, points_view(points@), query@, limit, pass_of(filter), scored_of(r@)),
{
    let places = select(points, filter);
    let n: usize = places.len();
    let ghost all = points_at(points_view(points@), places@);
    let mut scores: Vec<Real> = Vec::new();
    let mut i: usize = 0;
    while i < n
        invariant
            i <= n,
            n == places@.len(),
            scores@.len() == i,
            all == points_at(points_view(points@), places@),
            forall|j: int| 0 <= j < places@.len() ==> #[trigger] places@[j] < points@.len(),
            forall|j: int| 0 <= j < i ==> gives_plain_score(k, distance, query@, all[j].vector, #[trigger] scores@[j]),
        decreases n - i,
    {
        let s = plain_score(k, distance, query, points[places[i]].vector.as_slice());
        assert(gives_plain_score(k, distance, query@, all[i as int].vector, s));
        scores.push(s);
        i += 1;
    }
    assert(plainly_scores(k, distance, query@, all, scores@));
    take_best(points, &places, &scores, limit)
}

/// The vectors of a point that a multivector query is compared with: its multivector, or its
/// dense vector, or, if that is empty, one vector of zeros as long as those of the query.
pub open spec fn document_rows(point: PointV, dim: nat) -> Seq<Seq<Real>> {
    match point.multivector {
        Some(rows) => rows,
        None => if point.vector.len() > 0 {
            seq![point.vector]
        } else {
            seq![Seq::new(dim, |i: int| zero())]
        },
    }
}

/// What scoring every point against a multivector query comes to.
pub open spec fn scores_multi<K: Kernels>(
    k: &K,
    distance: Distance,
    query: Seq<Seq<Real>>,
    points: Seq<PointV>,
    scores: Seq<Real>,
) -> bool {
    scores.len() == points.len() && forall|i: int|
        0 <= i < points.len() ==> gives_max_sim(
            k,
            distance,
            query,
            document_rows(points[i], query[0].len()),
            #[trigger] scores[i],
        )
}

/// What a multivector search comes to.
pub open spec fn multivector_gives<K: Kernels>(
    k: &K,
    distance: Distance,
    points: Seq<PointV>,
    query: Seq<Seq<Real>>,
    limit: usize,
    pass: spec_fn(PointV) -> bool,
    r: Seq<(PointV, Real)>,
) -> bool {
    exists|scores: Seq<Real>| #[trigger]
        scores_multi(k, distance, query, selected(points, pass), scores) && takes_best(
            selected(points, pass),
            scores,
            limit as nat,
            r,
        )
}

fn zeros(dim: usize) -> (r: Vec<Real>)
    ensures
        r@ == Seq::new(dim as nat, |i: int| zero()),
{
    let mut r: Vec<Real> = Vec::new();
    let mut i: usize = 0;
    while i < dim
        invariant
            i <= dim,
            r@ == Seq::new(i as nat, |j: int| zero()),
        decreases dim - i,
    {
        r.push(Real { bits: 0 });
        i += 1;
        assert(r@ =~= Seq::new(i as nat, |j: int| zero()));
    }
    r
}

/// How a multivector query scores a point.
fn multivector_score<K: Kernels>(k: &K, distance: Distance, query: &MultiVector, point: &Point) -> (r: Real)
    ensures
        gives_max_sim(k, distance, query@, document_rows(point@, query@[0].len()), r),
{
    match &point.multivector {
        Some(document) => max_sim(k, distance, query, document),
        None => {
            let dim: usize = query.dim();
            let single = match MultiVector::from_single(copy_reals(&point.vector.data)) {
                Ok(m) => Some(m),
                Err(_) => match MultiVector::from_single(zeros(dim)) {
                    Ok(m) => Some(m),
                    Err(_) => None,
                },
            };
            match single {
                Some(document) => {
                    assert(document@ == document_rows(point@, query@[0].len()));
                    max_sim(k, distance, query, &document)
                },
                None => {
                    assert(false);
                    Real { bits: 0 }
                },
            }
        },
    }
}

/// Search using multivector MaxSim scoring
pub fn multivector_search<K: Kernels, F: Filter>(
    k: &K,
    distance: Distance,
    points: &Vec<Point>,
    query: &MultiVector,
    limit: usize,
    filter: Option<&F>,
) -> (r: Vec<(Point, Real)>)
    ensures
        multivector_gives(k, distance, points_view(points@), query@, limit, pass_of(filter), scored_of(r@)),
{
    let places = select(points, filter);
    let n: usize = places.len();
    let ghost all = points_at(points_view(points@), places@);
    let mut scores: Vec<Real> = Vec::new();
    let mut i: usize = 0;
    while i < n
        invariant
            i <= n,
            n == places@.len(),
            scores@.len() == i,
            all == points_at(points_view(points@), places@),
            forall|j: int| 0 <= j < places@.len() ==> #[trigger] places@[j] < points@.len(),
            forall|j: int|
                0 <= j < i ==> gives_max_sim(
                    k,
                    distance,
                    query@,
                    document_rows(all[j], query@[0].len()),
                    #[trigger] scores@[j],
                ),
        decreases n - i,
    {
        let s = multivector_score(k, distance, query, &points[places[i]]);
        assert(gives_max_sim(k, distance, query@, document_rows(all[i as int], query@[0].len()), s));
        scores.push(s);
        i += 1;
    }
    assert(scores_multi(k, distance, query@, all, scores@));
    take_best(points, &places, &scores, limit)
}

/// The points that have a sparse vector under a name, in their order.
pub open spec fn with_sparse(points: Seq<PointV>, name: Seq<char>) -> Seq<PointV>
    decreases points.len(),
{
    if points.len() == 0 {
        Seq::empty()
    } else if lookup(points.last().sparse_vectors, name) is Some {
        with_sparse(points.drop_last(), name).push(points.last())
    } else {
        with_sparse(points.drop_last(), name)
    }
}

/// What scoring points by their sparse vectors under a name comes to.
pub open spec fn scores_sparse<K: Kernels>(
    k: &K,
    query: SparseVectorV,
    name: Seq<char>,
    points: Seq<PointV>,
    scores: Seq<Real>,
) -> bool {
    scores.len() == points.len() && forall|i: int|
        0 <= i < points.len() ==> gives_sparse_dot(
            k,
            query,
            lookup(points[i].sparse_vectors, name)->0,
            #[trigger] scores[i],
        )
}

/// The points whose score is above zero.
pub open spec fn scoring(points: Seq<PointV>, scores: Seq<Real>) -> Seq<PointV>
    decreases points.len(),
{
    if points.len() == 0 {
        Seq::empty()
    } else if zero().less(scores.last()) {
        scoring(points.drop_last(), scores.drop_last()).push(points.last())
    } else {
        scoring(points.drop_last(), scores.drop_last())
    }
}

/// The scores above zero.
pub open spec fn above_zero(scores: Seq<Real>) -> Seq<Real>
    decreases scores.len(),
{
    if scores.len() == 0 {
        Seq::empty()
    } else if zero().less(scores.last()) {
        above_zero(scores.drop_last()).push(scores.last())
    } else {
        above_zero(scores.drop_last())
    }
}

/// What a sparse search comes to: of the points that the filter lets through and that have the
/// sparse vector, those that score above zero, best first.
pub open spec fn sparse_gives<K: Kernels>(
    k: &K,
    points: Seq<PointV>,
    query: SparseVectorV,
    name: Seq<char>,
    limit: usize,
    pass: spec_fn(PointV) -> bool,
    r: Seq<(PointV, Real)>,
) -> bool {
    exists|scores: Seq<Real>| #[trigger]
        scores_sparse(k, query, name, with_sparse(selected(points, pass), name), scores) && takes_best(
            scoring(with_sparse(selected(points, pass), name), scores),
            above_zero(scores),
            limit as nat,
            r,
        )
}

/// Search using sparse vectors (dot product on matching indices)
pub fn sparse_search<K: Kernels, F: Filter>(
    k: &K,
    points: &Vec<Point>,
    query: &SparseVector,
    name: &str,
    limit: usize,
    filter: Option<&F>,
) -> (r: Vec<(Point, Real)>)
    ensures
        sparse_gives(k, points_view(points@), query@, name@, limit, pass_of(filter), scored_of(r@)),
{
    let places = select(points, filter);
    let n: usize = places.len();
    let ghost pv = points_view(points@);
    let ghost all = points_at(pv, places@);
    let mut keep: Vec<usize> = Vec::new();
    let mut kept_scores: Vec<Real> = Vec::new();
    let ghost mut scores: Seq<Real> = Seq::empty();
    let mut i: usize = 0;
    proof {
        assert(with_sparse(all.take(0), name@) =~= Seq::<PointV>::empty());
        assert(points_at(pv, keep@) =~= scoring(with_sparse(all.take(0), name@), scores));
        assert(kept_scores@ =~= above_zero(scores));
    }
    while i < n
        invariant
            i <= n,
            n == places@.len(),
            pv == points_view(points@),
            all == points_at(pv, places@),
            forall|j: int| 0 <= j < places@.len() ==> #[trigger] places@[j] < points@.len(),
            forall|j: int| 0 <= j < keep@.len() ==> #[trigger] keep@[j] < points@.len(),
            kept_scores@.len() == keep@.len(),
            scores_sparse(k, query@, name@, with_sparse(all.take(i as int), name@), scores),
            points_at(pv, keep@) == scoring(with_sparse(all.take(i as int), name@), scores),
            kept_scores@ == above_zero(scores),
        decreases n - i,
    {
        let ghost before = with_sparse(all.take(i as int), name@);
        let ghost scores0 = scores;
        let ghost keep0 = keep@;
        assert(all.take(i + 1).drop_last() =~= all.take(i as int));
        assert(all.take(i + 1).last() == all[i as int]);
        let at: usize = places[i];
        assert(points@[at as int]@ == all[i as int]);
        if let Some(v) = points[at].sparse_vector(name) {
            let s = sparse_dot(k, query, v);
            assert(gives_sparse_dot(k, query@, v@, s));
            proof {
                scores = scores.push(s);
                let now = with_sparse(all.take(i + 1), name@);
                assert(now == before.push(all[i as int]));
                assert(now.drop_last() =~= before);
                assert(scores.drop_last() =~= scores0);
                assert forall|j: int| 0 <= j < now.len() implies gives_sparse_dot(
                    k,
                    query@,
                    lookup(now[j].sparse_vectors, name@)->0,
                    #[trigger] scores[j],
                ) by {
                    if j < before.len() {
                        assert(now[j] == before[j]);
                        assert(scores[j] == scores0[j]);
                    }
                }
            }
            let none = Real { bits: 0 };
            if none.lt(s) {
                keep.push(at);
                kept_scores.push(s);
                assert(points_at(pv, keep@) =~= points_at(pv, keep0).push(all[i as int]));
            }
        }
        i += 1;
    }
    assert(all.take(i as int) =~= all);
    take_best(points, &keep, &kept_scores, limit)
}

} // verus!
