//! What the operations on a collection return and change, stated of the operations themselves.

use vstd::prelude::*;
use crate::admin_laws::law_new_collection_is_empty;
use crate::api::{hits_of, shown_hits, ApiError, ApiErrorV, Hit, Shown};
use crate::collection::{
    batch_answer_of, batch_answers, batch_ended, batch_started, rebuild_answer, refuses, searches,
    stores_through, upserts_all, warms, Collection, CollectionV, Error,
};
use crate::collection_laws::{
    law_batch_stores_all, law_delete_then_missing, law_search_respects_filter, law_upsert_then_get,
    law_vector_updated_then_get, lemma_distinct_so_far,
};
use crate::config::{CollectionConfig, PayloadIndexType};
use crate::endpoint_laws::point_after;
use crate::entries::{law_put_leaves_others, law_put_then_lookup, law_without_lookup, lookup};
use crate::explore_laws::{
    fused_rightly, law_fusion_adds_all_shares, law_fusion_request, law_fusion_runs_all,
};
use crate::filter::{filter_condition, pass_json, Filter};
use crate::filter_laws::{
    comparable, inside_bounds, law_filter_meaning, law_range_condition, on_field,
};
use crate::fusion::{
    all_placed, fuse, fusion_answers, fusion_gives, query_points, results_of, using_of,
    PrefetchQuery, QueryRequest,
};
use crate::hnsw::{index_gives, points_of, scored_of};
use crate::ieee::Real;
use crate::input::numbers;
use crate::json::{texts, Json, JsonV};
use crate::kernel_laws::{law_every_example_counts, mean_of_all, steered_by_means};
use crate::kernels::{example_query, gives_normalized, Kernels};
use crate::matching::{condition_matches, matches_condition, matches_filter, nested_value};
use crate::point::{
    multivector_of, payload_of, rows_of, MultiVector, Point, PointV, SparseVector, Vector,
};
use crate::request_laws::{
    asked_key, law_query_by_vector, law_query_hits_meet_filter, law_query_request,
    law_search_hits_fit, law_vector_search_request, rest_behind,
};
use crate::rest_read::amount;
use crate::rest_search::{
    hits_answer, query_answers, search_points, shown_by, simple_query_answers, SearchRequest,
};
use crate::rest_write::PayloadChangeV;
use crate::scoring::pass_of;
use crate::search_laws::{
    law_built_index_holds_all, law_index_search_loses_nothing, law_multivector_search_finds_best,
    law_scan_finds_best, law_search_warms, law_small_search_finds_best,
    law_sparse_search_finds_best, rightly_compared, rightly_scanned, rightly_scored,
    sparse_matches, sparse_products, top, with_scores,
};
use crate::store::{keys_distinct, points_view};
use crate::value_laws::law_point_found;
use crate::write_laws::{
    fits, law_batch_keeps_others, law_delete_leaves_indexes, law_dimension_checked,
    law_multivector_set, law_payload_changed, law_version_counts,
};

verus! {

// ---------------------------------------------------------------------------------------------
// Searching a collection

/// The points of a collection that a filter accepts, all of them without one.
pub open spec fn accepted<F: Filter>(points: Seq<PointV>, filter: Option<&F>) -> Seq<PointV> {
    points.filter(|p: PointV| filter is None || filter->0.accepts(p))
}

proof fn lemma_accepted<F: Filter>(points: Seq<PointV>, filter: Option<&F>)
    ensures
        accepted(points, filter) == points.filter(pass_of(filter)),
{
    assert(pass_of(filter) =~= |p: PointV| filter is None || filter->0.accepts(p));
}

/// Searching fewer than ten thousand points returns the best of all stored points that the filter
/// accepts, best first, as many as there are up to the limit, and changes nothing.
pub proof fn law_search_small<K: Kernels, F: Filter>(
    c: &mut Collection,
    k: &K,
    query: &Vector,
    limit: usize,
    filter: Option<&F>,
    r: Vec<(Point, Real)>,
)
    requires
        old(c).wf(),
        old(c)@.points.len() < 10_000,
        call_ensures(Collection::search::<K, F>, (c, k, query, limit, filter), r),
    ensures
        final(c)@ == old(c)@,
        exists|scaled: Seq<Real>, scores: Seq<Real>| #[trigger]
            gives_normalized(k, query@, scaled) && #[trigger] rightly_scored(
                k,
                old(c)@.config.distance,
                scaled,
                accepted(old(c)@.points, filter),
                scores,
            ) && top(with_scores(accepted(old(c)@.points, filter), scores), limit as nat, scored_of(r@)),
{
    lemma_accepted(old(c)@.points, filter);
    law_small_search_finds_best(k, old(c)@, query@, limit, pass_of(filter), final(c)@, scored_of(r@));
}

/// Searching a large collection without an index is exact too.
pub proof fn law_search_large_without_index<K: Kernels, F: Filter>(
    c: &mut Collection,
    k: &K,
    query: &Vector,
    limit: usize,
    filter: Option<&F>,
    r: Vec<(Point, Real)>,
)
    requires
        old(c).wf(),
        old(c)@.points.len() >= 10_000,
        !old(c)@.config.use_hnsw,
        call_ensures(Collection::search::<K, F>, (c, k, query, limit, filter), r),
    ensures
        final(c)@ == old(c)@,
        exists|scores: Seq<Real>| #[trigger]
            rightly_scanned(
                k,
                old(c)@.config.distance,
                query@,
                accepted(old(c)@.points, filter),
                scores,
            ) && top(with_scores(accepted(old(c)@.points, filter), scores), limit as nat, scored_of(r@)),
{
    Collection::law_well_formed(&*old(c));
    lemma_accepted(old(c)@.points, filter);
    law_scan_finds_best(k, old(c)@, query@, limit, pass_of(filter), final(c)@, scored_of(r@));
}

/// Whatever is searched, there are no more hits than asked for, the filter accepts every one of
/// them, and the points of the collection stay as they are.
pub proof fn law_search_hits_accepted<K: Kernels, F: Filter>(
    c: &mut Collection,
    k: &K,
    query: &Vector,
    limit: usize,
    filter: Option<&F>,
    r: Vec<(Point, Real)>,
)
    requires
        old(c).wf(),
        call_ensures(Collection::search::<K, F>, (c, k, query, limit, filter), r),
    ensures
        final(c)@.points == old(c)@.points,
        r@.len() <= limit,
        forall|i: int| 0 <= i < r@.len() ==> (filter is None || filter->0.accepts((#[trigger] r@[i]).0@)),
{
    law_search_respects_filter(k, old(c)@, query@, limit, pass_of(filter), final(c)@, scored_of(r@));
    assert forall|i: int| 0 <= i < r@.len() implies (filter is None || filter->0.accepts((#[trigger] r@[i]).0@)) by {
        assert(pass_of(filter)(scored_of(r@)[i].0));
    }
}

/// Searching a large collection through its index returns everything that the index finds and the
/// filter accepts, in the order found, and nothing else; the index holds all points if it was not
/// built before.
pub proof fn law_search_through_index<K: Kernels, F: Filter>(
    c: &mut Collection,
    k: &K,
    query: &Vector,
    limit: usize,
    filter: Option<&F>,
    r: Vec<(Point, Real)>,
)
    requires
        old(c).wf(),
        old(c)@.points.len() >= 10_000,
        old(c)@.config.use_hnsw,
        call_ensures(Collection::search::<K, F>, (c, k, query, limit, filter), r),
    ensures
        final(c)@.index is Some,
        final(c)@.built,
        !old(c)@.built ==> points_of(final(c)@.index->0) == old(c)@.points,
        exists|scaled: Seq<Real>, found: Seq<(PointV, Real)>|
            {
                &&& #[trigger] gives_normalized(k, query@, scaled)
                &&& #[trigger] index_gives(k, final(c)@.index->0, scaled, limit, None, found)
                &&& scored_of(r@) == found.filter(|h: (PointV, Real)| filter is None || filter->0.accepts(h.0))
                &&& forall|i: int|
                    0 <= i < found.len() && (filter is None || filter->0.accepts((#[trigger] found[i]).0)) ==> scored_of(
                        r@,
                    ).contains(found[i])
            },
{
    Collection::law_well_formed(&*old(c));
    let pass = pass_of(filter);
    law_index_search_loses_nothing(k, old(c)@, query@, limit, pass, final(c)@, scored_of(r@));
    let (scaled, found) = choose|scaled: Seq<Real>, found: Seq<(PointV, Real)>|
        {
            &&& #[trigger] gives_normalized(k, query@, scaled)
            &&& #[trigger] index_gives(k, final(c)@.index->0, scaled, limit, None, found)
            &&& scored_of(r@) == found.filter(|h: (PointV, Real)| pass(h.0))
            &&& forall|i: int| 0 <= i < found.len() && pass((#[trigger] found[i]).0) ==> scored_of(r@).contains(found[i])
            &&& forall|j: int| 0 <= j < scored_of(r@).len() ==> pass((#[trigger] scored_of(r@)[j]).0) && found.contains(
                scored_of(r@)[j],
            )
        };
    assert((|h: (PointV, Real)| pass(h.0)) =~= |h: (PointV, Real)| filter is None || filter->0.accepts(h.0));
    assert forall|i: int|
        0 <= i < found.len() && (filter is None || filter->0.accepts((#[trigger] found[i]).0)) implies scored_of(
        r@,
    ).contains(found[i]) by {
        assert(pass(found[i].0));
    }
    law_search_warms(k, old(c)@, query@, limit, pass, final(c)@, scored_of(r@));
}

/// Searching the sparse vectors leaves out no point that scores above zero: of all stored points
/// that the filter accepts, that have the named sparse vector and whose product with the query is
/// above zero it returns the best, best first, as many as there are up to the limit.
pub proof fn law_search_sparse<K: Kernels, F: Filter>(
    c: &Collection,
    k: &K,
    query: &SparseVector,
    name: &str,
    limit: usize,
    filter: Option<&F>,
    r: Vec<(Point, Real)>,
)
    requires
        c.wf(),
        call_ensures(Collection::search_sparse::<K, F>, (c, k, query, name, limit, filter), r),
    ensures
        exists|dots: Seq<Real>|
            {
                &&& #[trigger] sparse_products(k, query@, name@, c@.points, pass_of(filter), dots)
                &&& top(sparse_matches(name@, c@.points, pass_of(filter), dots), limit as nat, scored_of(r@))
                &&& r@.len() == if limit <= sparse_matches(name@, c@.points, pass_of(filter), dots).len() {
                    limit as nat
                } else {
                    sparse_matches(name@, c@.points, pass_of(filter), dots).len()
                }
            },
        forall|i: int| 0 <= i < r@.len() ==> (filter is None || filter->0.accepts((#[trigger] r@[i]).0@)),
{
    Collection::law_well_formed(c);
    law_sparse_search_finds_best(k, c@.points, query@, name@, limit, pass_of(filter), scored_of(r@));
    assert forall|i: int| 0 <= i < r@.len() implies (filter is None || filter->0.accepts((#[trigger] r@[i]).0@)) by {
        assert(pass_of(filter)(scored_of(r@)[i].0));
    }
}

/// Searching the multivectors returns the best of all stored points that the filter accepts, best
/// first, as many as there are up to the limit.
pub proof fn law_search_multivector<K: Kernels, F: Filter>(
    c: &Collection,
    k: &K,
    query: &MultiVector,
    limit: usize,
    filter: Option<&F>,
    r: Vec<(Point, Real)>,
)
    requires
        c.wf(),
        call_ensures(Collection::search_multivector::<K, F>, (c, k, query, limit, filter), r),
    ensures
        exists|documents: Seq<Seq<Seq<Real>>>, scores: Seq<Real>| #[trigger]
            rightly_compared(
                k,
                c@.config.distance,
                query@,
                accepted(c@.points, filter),
                documents,
                scores,
            ) && top(with_scores(accepted(c@.points, filter), scores), limit as nat, scored_of(r@)),
{
    Collection::law_well_formed(c);
    lemma_accepted(c@.points, filter);
    law_multivector_search_finds_best(
        k,
        c@.config.distance,
        c@.points,
        query@,
        limit,
        pass_of(filter),
        scored_of(r@),
    );
}

// ---------------------------------------------------------------------------------------------
// Requests that search

/// The hits of a request to search near a vector: at most as many as it asks for, or ten; none
/// scores below the threshold; and where payloads are shown and the filter of the request stands
/// for a condition, the payload of every hit meets it.
pub proof fn law_search_points_hits<K: Kernels>(
    c: &mut Collection,
    k: &K,
    req: &SearchRequest,
    r: Result<Vec<Hit>, ApiError>,
    i: int,
)
    requires
        old(c).wf(),
        req.text is None,
        req.vector is Some,
        amount(req.limit, 10) + amount(req.offset, 0) <= usize::MAX,
        call_ensures(search_points::<K>, (c, k, req), r),
        r is Ok,
        0 <= i < r->Ok_0@.len(),
    ensures
        r->Ok_0@.len() <= if req.limit is Some {
            req.limit->0
        } else {
            10
        },
        req.score_threshold is Some ==> req.score_threshold->0.at_most(r->Ok_0@[i].score),
        req.with_payload != Some(false) && req.filter is Some && filter_condition(req.filter->0@) is Some ==> (
        r->Ok_0@[i].record.payload is Some && filter_condition(req.filter->0@)->0.holds(
            r->Ok_0@[i].record.payload->0@,
        )),
{
    law_search_hits_fit(k, old(c)@, *req, final(c)@, hits_answer(r), i);
    assert(hits_of(r->Ok_0@)[i] == (r->Ok_0@[i].record@, r->Ok_0@[i].score));
}

/// A request to search near a vector in a small collection misses nothing: it goes through the best
/// of the stored points that its filter lets through, as many as it asks for and passes over
/// together, passes over the first ones, drops what scores below the threshold, and shows the rest.
pub proof fn law_search_points_complete<K: Kernels>(
    c: &mut Collection,
    k: &K,
    req: &SearchRequest,
    r: Result<Vec<Hit>, ApiError>,
)
    requires
        old(c).wf(),
        old(c)@.points.len() < 10_000,
        req.text is None,
        req.vector is Some,
        amount(req.limit, 10) + amount(req.offset, 0) <= usize::MAX,
        call_ensures(search_points::<K>, (c, k, req), r),
    ensures
        r is Ok,
        final(c)@ == old(c)@,
        exists|scaled: Seq<Real>, scores: Seq<Real>, found: Seq<(PointV, Real)>|
            {
                &&& #[trigger] gives_normalized(k, req.vector->0@, scaled)
                &&& #[trigger] rightly_scored(
                    k,
                    old(c)@.config.distance,
                    scaled,
                    old(c)@.points.filter(pass_json(payload_of(req.filter))),
                    scores,
                )
                &&& #[trigger] top(
                    with_scores(old(c)@.points.filter(pass_json(payload_of(req.filter))), scores),
                    (amount(req.limit, 10) + amount(req.offset, 0)) as nat,
                    found,
                )
                &&& hits_of(r->Ok_0@) == shown_hits(
                    rest_behind(found, amount(req.offset, 0)).filter(
                        |h: (PointV, Real)| req.score_threshold is None || req.score_threshold->0.at_most(h.1),
                    ),
                    shown_by(req.with_payload, req.with_vector),
                )
            },
{
    let pass = pass_json(payload_of(req.filter));
    let span = (amount(req.limit, 10) + amount(req.offset, 0)) as usize;
    let keep = |h: (PointV, Real)| req.score_threshold is None || req.score_threshold->0.at_most(h.1);
    law_vector_search_request(k, old(c)@, *req, final(c)@, hits_answer(r));
    let found = choose|found: Seq<(PointV, Real)>| #[trigger]
        searches(k, old(c)@, req.vector->0@, span, pass, final(c)@, found) && hits_answer(r)->Ok_0 == shown_hits(
            rest_behind(found, amount(req.offset, 0)).filter(keep),
            shown_by(req.with_payload, req.with_vector),
        );
    law_small_search_finds_best(k, old(c)@, req.vector->0@, span, pass, final(c)@, found);
    let (scaled, scores) = choose|scaled: Seq<Real>, scores: Seq<Real>| #[trigger]
        gives_normalized(k, req.vector->0@, scaled) && #[trigger] rightly_scored(
            k,
            old(c)@.config.distance,
            scaled,
            old(c)@.points.filter(pass),
            scores,
        ) && top(with_scores(old(c)@.points.filter(pass), scores), span as nat, found);
    assert(top(
        with_scores(old(c)@.points.filter(pass_json(payload_of(req.filter))), scores),
        (amount(req.limit, 10) + amount(req.offset, 0)) as nat,
        found,
    ));
}

/// No hit of a query request without fusion is rejected by the filter of the request: where payloads
/// are shown and the filter stands for a condition, the payload of every hit meets it. There are at
/// most as many hits as asked for, or ten.
pub proof fn law_query_points_hits<K: Kernels>(
    c: &mut Collection,
    k: &K,
    req: &QueryRequest,
    r: Result<Vec<Hit>, ApiError>,
    i: int,
)
    requires
        old(c).wf(),
        req.query@.get("fusion"@) is None || req.prefetch is None,
        asked_key(req.query@) is Some ==> amount(req.limit, 10) < usize::MAX,
        call_ensures(query_points::<K>, (c, k, req), r),
        r is Ok,
        0 <= i < r->Ok_0@.len(),
    ensures
        r->Ok_0@.len() <= if req.limit is Some {
            req.limit->0
        } else {
            10
        },
        req.with_payload != Some(false) && req.filter is Some && filter_condition(req.filter->0@) is Some ==> (
        r->Ok_0@[i].record.payload is Some && filter_condition(req.filter->0@)->0.holds(
            r->Ok_0@[i].record.payload->0@,
        )),
{
    Collection::law_well_formed(&*old(c));
    law_query_hits_meet_filter(k, old(c)@, *req, final(c)@, hits_answer(r), i);
    assert(hits_of(r->Ok_0@)[i] == (r->Ok_0@[i].record@, r->Ok_0@[i].score));
}

/// A query request by a list of numbers in a small collection returns the best of the stored points
/// that its filter lets through, best first, as many as there are up to as many as it asks for, or
/// ten.
pub proof fn law_query_points_complete<K: Kernels>(
    c: &mut Collection,
    k: &K,
    req: &QueryRequest,
    r: Result<Vec<Hit>, ApiError>,
    list: Seq<JsonV>,
)
    requires
        old(c).wf(),
        old(c)@.points.len() < 10_000,
        req.query@ == JsonV::Array(list),
        list.len() > 0,
        forall|i: int| 0 <= i < list.len() ==> (#[trigger] list[i]) is Number,
        call_ensures(query_points::<K>, (c, k, req), r),
    ensures
        r is Ok,
        final(c)@ == old(c)@,
        exists|scaled: Seq<Real>, scores: Seq<Real>, found: Seq<(PointV, Real)>|
            {
                &&& #[trigger] gives_normalized(k, numbers(list)->0, scaled)
                &&& #[trigger] rightly_scored(
                    k,
                    old(c)@.config.distance,
                    scaled,
                    old(c)@.points.filter(pass_json(payload_of(req.filter))),
                    scores,
                )
                &&& #[trigger] top(
                    with_scores(old(c)@.points.filter(pass_json(payload_of(req.filter))), scores),
                    amount(req.limit, 10) as nat,
                    found,
                )
                &&& hits_of(r->Ok_0@) == shown_hits(
                    found,
                    (Shown {
                        payload: req.with_payload != Some(false),
                        vector: req.with_vector == Some(true),
                        multivector: req.with_vector == Some(true),
                    }),
                )
            },
{
    let pass = pass_json(payload_of(req.filter));
    law_query_request(k, old(c)@, *req, final(c)@, hits_answer(r));
    let found = choose|found: Result<Seq<(PointV, Real)>, ApiErrorV>| #[trigger]
        simple_query_answers(
            k,
            old(c)@,
            req.query@,
            amount(req.limit, 10),
            pass,
            using_of(req.using),
            final(c)@,
            found,
        ) && (found is Ok) == (hits_answer(r) is Ok) && (hits_answer(r) is Err ==> hits_answer(r)->Err_0
            == found->Err_0) && (hits_answer(r) is Ok ==> hits_answer(r)->Ok_0 == shown_hits(
            found->Ok_0,
            (Shown {
                payload: req.with_payload != Some(false),
                vector: req.with_vector == Some(true),
                multivector: req.with_vector == Some(true),
            }),
        ));
    assert(list[0] is Number);
    law_query_by_vector(
        k,
        old(c)@,
        list,
        amount(req.limit, 10),
        pass,
        using_of(req.using),
        final(c)@,
        found,
    );
    assert(numbers(list)->0 =~= Seq::new(list.len(), |i: int| list[i]->Number_0.single));
    law_small_search_finds_best(
        k,
        old(c)@,
        numbers(list)->0,
        amount(req.limit, 10),
        pass,
        final(c)@,
        found->Ok_0,
    );
}

// ---------------------------------------------------------------------------------------------
// Examples and conditions

/// Every example counts in the query that examples make.
pub proof fn law_example_query<K: Kernels>(k: &K, liked: &Vec<Vec<Real>>, disliked: &Vec<Vec<Real>>, r: Vec<Real>)
    requires
        liked@.len() > 0,
        call_ensures(example_query::<K>, (k, liked, disliked), r),
    ensures
        r@.len() == liked@[0]@.len(),
        disliked@.len() == 0 ==> forall|i: int|
            0 <= i < r@.len() ==> mean_of_all(k, rows_of(liked@), i, #[trigger] r@[i]),
        disliked@.len() > 0 ==> exists|p: Seq<Real>, n: Seq<Real>| #[trigger]
            steered_by_means(k, rows_of(liked@), rows_of(disliked@), p, n, r@),
{
    law_every_example_counts(k, rows_of(liked@), rows_of(disliked@), r@);
}

/// Whether a point meets a range: exactly if it has a number at the field that is inside every
/// bound given.
pub proof fn law_matches_range(point: &Point, cond: &Json, key: Seq<char>, range: JsonV, r: bool)
    requires
        call_ensures(matches_condition, (point, cond), r),
        on_field(cond@, key),
        cond@.get_object("match"@) is None,
        cond@.get_object("range"@) == Some(range),
        comparable(range),
        nested_value(point@.payload, key) matches Some(JsonV::Number(n)) ==> !n.double.nan(),
    ensures
        r == match nested_value(point@.payload, key) {
            Some(JsonV::Number(n)) => inside_bounds(n, range),
            _ => false,
        },
{
    law_range_condition(point@, cond@, key, range);
}

/// Whether a point matches a filter: exactly if it meets every condition under `must`, one under
/// `should` if there are any, and none under `must_not`.
pub proof fn law_matches_filter(
    point: &Point,
    filter: &Json,
    must: Seq<JsonV>,
    should: Seq<JsonV>,
    must_not: Seq<JsonV>,
    r: bool,
)
    requires
        call_ensures(matches_filter, (point, filter), r),
        filter@ is Object,
        filter@.get_array("must"@) == Some(must) || (filter@.get_array("must"@) is None && must.len() == 0),
        filter@.get_array("should"@) == Some(should) || (filter@.get_array("should"@) is None && should.len() == 0),
        filter@.get_array("must_not"@) == Some(must_not) || (filter@.get_array("must_not"@) is None && must_not.len() == 0),
    ensures
        r == {
            &&& forall|i: int| 0 <= i < must.len() ==> condition_matches(point@, #[trigger] must[i])
            &&& should.len() == 0 || exists|i: int| 0 <= i < should.len() && condition_matches(point@, #[trigger] should[i])
            &&& forall|i: int| 0 <= i < must_not.len() ==> !condition_matches(point@, #[trigger] must_not[i])
        },
{
    law_filter_meaning(point@, filter@, must, should, must_not);
}

/// Fusing results adds up, for every key in them, the shares of all places at which it stands, and
/// returns the points with the highest sums, best first, as many as there are up to the limit.
pub proof fn law_fuse<K: Kernels>(k: &K, results: &Vec<Vec<(Point, Real)>>, limit: usize, r: Vec<(Point, Real)>)
    requires
        call_ensures(fuse::<K>, (k, results, limit), r),
        all_placed(results_of(results@)).len() <= usize::MAX,
    ensures
        exists|fused: Seq<(PointV, Real)>| #[trigger]
            fused_rightly(k, all_placed(results_of(results@)), fused) && top(fused, limit as nat, scored_of(r@)),
{
    law_fusion_adds_all_shares(k, results_of(results@), limit, scored_of(r@));
}

/// A query request with fusion and prefetch queries runs every one of these, each with its own
/// filter, limit and name, and shows what fusing all that they found comes to, at most as many as
/// asked for, or ten.
pub proof fn law_query_points_fused<K: Kernels>(
    c: &mut Collection,
    k: &K,
    req: &QueryRequest,
    r: Result<Vec<Hit>, ApiError>,
)
    requires
        old(c).wf(),
        req.query@.get("fusion"@) is Some,
        req.prefetch is Some,
        call_ensures(query_points::<K>, (c, k, req), r),
        r is Ok,
    ensures
        exists|results: Seq<Seq<(PointV, Real)>>, found: Seq<(PointV, Real)>| #[trigger]
            fusion_gives(k, results, amount(req.limit, 10), found) && results.len() == req.prefetch->0@.len() && hits_of(
                r->Ok_0@,
            ) == shown_hits(
                found,
                (Shown {
                    payload: req.with_payload != Some(false),
                    vector: req.with_vector == Some(true),
                    multivector: req.with_vector == Some(true),
                }),
            ) && forall|i: int|
                0 <= i < results.len() ==> prefetched(k, req.prefetch->0@[i], #[trigger] results[i]),
{
    let prefetch = req.prefetch->0@;
    let limit = amount(req.limit, 10);
    law_fusion_request(k, old(c)@, *req, final(c)@, hits_answer(r));
    let found = choose|found: Result<Seq<(PointV, Real)>, ApiErrorV>| #[trigger]
        fusion_answers(k, old(c)@, prefetch, limit, final(c)@, found) && (found is Ok) == (hits_answer(r) is Ok) && (
        hits_answer(r) is Err ==> hits_answer(r)->Err_0 == found->Err_0) && (hits_answer(r) is Ok ==> hits_answer(
            r,
        )->Ok_0 == shown_hits(
            found->Ok_0,
            (Shown {
                payload: req.with_payload != Some(false),
                vector: req.with_vector == Some(true),
                multivector: req.with_vector == Some(true),
            }),
        ));
    law_fusion_runs_all(k, old(c)@, prefetch, limit, final(c)@, found);
    let (states, results) = choose|states: Seq<CollectionV>, results: Seq<Seq<(PointV, Real)>>|
        {
            &&& #[trigger] fusion_gives(k, results, limit, found->Ok_0)
            &&& results.len() == prefetch.len()
            &&& #[trigger] states.len() == prefetch.len() + 1
            &&& states[0] == old(c)@
            &&& states[prefetch.len() as int] == final(c)@
            &&& forall|i: int|
                0 <= i < prefetch.len() ==> query_answers(
                    k,
                    states[i],
                    (#[trigger] prefetch[i]).query@,
                    amount(prefetch[i].limit, 20),
                    pass_json(payload_of(prefetch[i].filter)),
                    using_of(prefetch[i].using),
                    states[i + 1],
                    Ok(results[i]),
                )
        };
    assert forall|i: int| 0 <= i < results.len() implies prefetched(k, prefetch[i], #[trigger] results[i]) by {
        assert(query_answers(
            k,
            states[i],
            prefetch[i].query@,
            amount(prefetch[i].limit, 20),
            pass_json(payload_of(prefetch[i].filter)),
            using_of(prefetch[i].using),
            states[i + 1],
            Ok(results[i]),
        ));
    }
}

/// A result is what a prefetch query finds in some state of a collection: for its own query, with its
/// own filter and name, at most as many as it asks for, or twenty.
pub open spec fn prefetched<K: Kernels>(k: &K, query: PrefetchQuery, found: Seq<(PointV, Real)>) -> bool {
    exists|before: CollectionV, after: CollectionV| #[trigger]
        query_answers(
            k,
            before,
            query.query@,
            amount(query.limit, 20),
            pass_json(payload_of(query.filter)),
            using_of(query.using),
            after,
            Ok(found),
        )
}

// ---------------------------------------------------------------------------------------------
// Changing a collection

/// A point is stored exactly if its vector fits; then it is found under its key as it was given but
/// for its version, and every other point is found as before. Otherwise nothing changes.
pub proof fn law_upsert<K: Kernels>(c: &mut Collection, k: &K, point: Point, r: Result<(), Error>, key: Seq<char>)
    requires
        old(c).wf(),
        call_ensures(Collection::upsert::<K>, (c, k, point), r),
    ensures
        (r is Ok) == (old(c)@.config.vector_dim == 0 || point@.vector.len() == old(c)@.config.vector_dim),
        r is Err ==> final(c)@ == old(c)@,
        r is Ok && key != point@.key() ==> final(c)@.point(key) == old(c)@.point(key),
        r is Ok ==> final(c)@.point(point@.key()) == Some(
            PointV {
                version: match old(c)@.point(point@.key()) {
                    Some(p) => ((p.version + 1) % 0x1_0000_0000_0000_0000) as u64,
                    None => 0,
                },
                ..point@
            },
        ),
{
    Collection::law_well_formed(&*old(c));
    law_dimension_checked(k, old(c)@, point@, final(c)@, r);
    if r is Ok {
        law_upsert_then_get(k, old(c)@, point@, final(c)@, key);
        law_upsert_then_get(k, old(c)@, point@, final(c)@, point@.key());
        law_version_counts(old(c)@, point@);
    }
}

/// A batch stores its points exactly if all vectors fit; each is then found under its key as it was
/// given but for its version, unless a later one has the same key.
pub proof fn law_batch_upsert<K: Kernels>(
    c: &mut Collection,
    k: &K,
    points: Vec<Point>,
    r: Result<Option<Vec<Point>>, Error>,
    i: int,
)
    requires
        old(c).wf(),
        call_ensures(Collection::batch_upsert::<K>, (c, k, points), r),
        r is Ok,
        0 <= i < points@.len(),
        forall|j: int| i < j < points@.len() ==> (#[trigger] points@[j])@.key() != points@[i]@.key(),
    ensures
        !final(c)@.batch_mode,
        final(c)@.point(points@[i]@.key()) is Some,
        final(c)@.point(points@[i]@.key())->0 == (PointV {
            version: final(c)@.point(points@[i]@.key())->0.version,
            ..points@[i]@
        }),
{
    Collection::law_well_formed(&*old(c));
    let all = points_view(points@);
    assert(all[i] == points@[i]@);
    assert forall|j: int| i < j < all.len() implies (#[trigger] all[j]).key() != all[i].key() by {
        assert(points@[j]@.key() != points@[i]@.key());
    }
    law_batch_stores_all(k, old(c)@, all, final(c)@, batch_answer_of(r)->Ok_0);
}

/// A point that is deleted is gone, from the text index too; it is said whether it was there, and
/// every other point is found as before.
pub proof fn law_delete(c: &mut Collection, id: &str, r: Result<bool, Error>, key: Seq<char>)
    requires
        old(c).wf(),
        call_ensures(Collection::delete, (c, id), r),
    ensures
        r == Ok::<bool, Error>(old(c)@.point(id@) is Some),
        final(c)@.point(key) == if key == id@ {
            None
        } else {
            old(c)@.point(key)
        },
        old(c)@.documents is Some ==> final(c)@.documents is Some && lookup(final(c)@.documents->0, id@) is None,
{
    Collection::law_well_formed(&*old(c));
    law_delete_then_missing(old(c)@, id@, key);
    law_delete_leaves_indexes(old(c)@, id@, id@);
}

/// A payload that is set, overwritten, stripped or cleared is that of the point afterwards; nothing
/// else of it changes, and no other point.
pub proof fn law_payload_operations(
    c: &mut Collection,
    id: &str,
    payload: Json,
    names: &[String],
    r: Result<bool, Error>,
    key: Seq<char>,
)
    requires
        old(c).wf(),
    ensures
        call_ensures(Collection::set_payload, (c, id, payload), r) ==> r == Ok::<bool, Error>(
            old(c)@.point(id@) is Some,
        ) && final(c)@.point(key) == point_after(old(c)@.point(key), key == id@, PayloadChangeV::Merge(payload@)),
        call_ensures(Collection::overwrite_payload, (c, id, payload), r) ==> r == Ok::<bool, Error>(
            old(c)@.point(id@) is Some,
        ) && final(c)@.point(key) == point_after(old(c)@.point(key), key == id@, PayloadChangeV::Overwrite(payload@)),
        call_ensures(Collection::delete_payload_keys, (c, id, names), r) ==> r == Ok::<bool, Error>(
            old(c)@.point(id@) is Some,
        ) && final(c)@.point(key) == point_after(
            old(c)@.point(key),
            key == id@,
            PayloadChangeV::DeleteKeys(texts(names@)),
        ),
        call_ensures(Collection::clear_payload, (c, id), r) ==> r == Ok::<bool, Error>(old(c)@.point(id@) is Some)
            && final(c)@.point(key) == point_after(old(c)@.point(key), key == id@, PayloadChangeV::Clear),
{
    Collection::law_well_formed(&*old(c));
    law_payload_changed(old(c)@, id@, PayloadChangeV::Merge(payload@), key);
    law_payload_changed(old(c)@, id@, PayloadChangeV::Overwrite(payload@), key);
    law_payload_changed(old(c)@, id@, PayloadChangeV::DeleteKeys(texts(names@)), key);
    law_payload_changed(old(c)@, id@, PayloadChangeV::Clear, key);
}

/// A vector that is given to a point is its vector, and nothing else changes; the same holds of a
/// multivector.
pub proof fn law_vector_operations<K: Kernels>(
    c: &mut Collection,
    k: &K,
    id: &str,
    vector: Vector,
    multivector: Option<MultiVector>,
    r: Result<bool, Error>,
    key: Seq<char>,
)
    requires
        old(c).wf(),
        old(c)@.point(id@) is Some,
    ensures
        call_ensures(Collection::update_vector::<K>, (c, k, id, vector), r) ==> final(c)@.point(key) == if key == id@ {
            Some(PointV { vector: vector@, ..old(c)@.point(id@)->0 })
        } else {
            old(c)@.point(key)
        },
        call_ensures(Collection::update_multivector, (c, id, multivector), r) ==> final(c)@.point(key) == if key == id@ {
            Some(PointV { multivector: multivector_of(multivector), ..old(c)@.point(id@)->0 })
        } else {
            old(c)@.point(key)
        },
        call_ensures(Collection::delete_vector, (c, id), r) ==> final(c)@.point(id@) is None,
{
    Collection::law_well_formed(&*old(c));
    if call_ensures(Collection::update_vector::<K>, (c, k, id, vector), r) {
        law_vector_updated_then_get(k, old(c)@, id@, vector@, final(c)@, key);
    }
    law_multivector_set(old(c)@, id@, multivector_of(multivector), key);
    law_delete_then_missing(old(c)@, id@, id@);
}

/// Getting the index ready builds it from all points if there are any, and changes nothing else.
pub proof fn law_prewarm_index<K: Kernels>(c: &mut Collection, k: &K, r: Result<(), Error>)
    requires
        old(c).wf(),
        call_ensures(Collection::prewarm_index::<K>, (c, k), r),
    ensures
        r is Ok,
        final(c)@.points == old(c)@.points,
        final(c)@.documents == old(c)@.documents,
        old(c)@.config.use_hnsw && old(c)@.points.len() > 0 ==> final(c)@.built,
        old(c)@.config.use_hnsw && old(c)@.points.len() > 0 && !old(c)@.built ==> points_of(final(c)@.index->0) == old(
            c,
        )@.points,
{
    Collection::law_well_formed(&*old(c));
    law_built_index_holds_all(k, old(c)@, final(c)@);
}

/// A batch with warming that goes through leaves an index that is ready, with all points in it if it
/// is new; without warming, or if a vector does not fit, nothing is built. A vector that does not fit
/// leaves the batch open. Points under other keys stay as they were.
pub proof fn law_batch_upsert_with_prewarm<K: Kernels>(
    c: &mut Collection,
    k: &K,
    points: Vec<Point>,
    prewarm: bool,
    r: Result<Option<Vec<Point>>, Error>,
    key: Seq<char>,
)
    requires
        old(c).wf(),
        call_ensures(Collection::batch_upsert_with_prewarm::<K>, (c, k, points, prewarm), r),
        forall|j: int| 0 <= j < points@.len() ==> (#[trigger] points@[j])@.key() != key,
    ensures
        final(c)@.point(key) == old(c)@.point(key),
        (r is Ok) == forall|i: int|
            0 <= i < points@.len() ==> old(c)@.config.vector_dim == 0 || (#[trigger] points@[i])@.vector.len() == old(
                c,
            )@.config.vector_dim,
        r is Ok && prewarm && final(c)@.index is Some && final(c)@.points.len() > 0 ==> final(c)@.built,
        r is Ok && prewarm && final(c)@.index is Some && final(c)@.points.len() > 0 && !old(c)@.built ==> points_of(
            final(c)@.index->0,
        ) == final(c)@.points,
        !(r is Ok && prewarm) ==> final(c)@.built == old(c)@.built && final(c)@.index == old(c)@.index,
        final(c)@.batch_mode == (r is Err),
{
    Collection::law_well_formed(&*old(c));
    let all = points_view(points@);
    assert forall|j: int| 0 <= j < all.len() implies (#[trigger] all[j]).key() != key by {
        assert(points@[j]@.key() != key);
    }
    let mid = choose|mid: CollectionV| #[trigger]
        batch_answers(k, old(c)@, all, mid, batch_answer_of(r)) && if r is Ok && prewarm {
            warms(k, mid, final(c)@)
        } else {
            final(c)@ == mid
        };
    law_batch_keeps_others(k, old(c)@, all, mid, batch_answer_of(r), key);
    lemma_batch_builds_nothing(k, old(c)@, all, mid, batch_answer_of(r));
    if r is Ok && prewarm {
        law_built_index_holds_all(k, mid, final(c)@);
    }
    if r is Ok {
        assert forall|i: int| 0 <= i < points@.len() implies old(c)@.config.vector_dim == 0 || (
        #[trigger] points@[i])@.vector.len() == old(c)@.config.vector_dim by {
            assert(fits(old(c)@, all[i].vector));
        }
    } else {
        let i = choose|i: int| 0 <= i < all.len() && !fits(old(c)@, (#[trigger] all[i]).vector);
        assert(points@[i]@ == all[i]);
    }
}

proof fn lemma_batch_builds_nothing<K: Kernels>(
    k: &K,
    before: CollectionV,
    points: Seq<PointV>,
    after: CollectionV,
    r: Result<Option<Seq<PointV>>, Error>,
)
    requires
        batch_answers(k, before, points, after, r),
        keys_distinct(before.points),
    ensures
        after.built == before.built,
        after.index == before.index,
        after.batch_mode == (r is Err),
{
    let (mid, r0) = choose|mid: CollectionV, r0: Result<(), Error>| #[trigger]
        upserts_all(k, batch_started(before), points, mid, r0) && match r0 {
            Ok(_) => after == batch_ended(mid) && r == Ok::<Option<Seq<PointV>>, Error>(rebuild_answer(mid)),
            Err(e) => after == mid && r == Err::<Option<Seq<PointV>>, Error>(e),
        };
    let states = choose|states: Seq<CollectionV>| #[trigger]
        stores_through(k, states, points) && states[0] == batch_started(before) && states.last() == mid && if states.len()
            == points.len() + 1 {
            r0 is Ok
        } else {
            refuses(mid, points[states.len() - 1], r0)
        };
    lemma_distinct_so_far(k, states, points, states.len() - 1);
}

// ---------------------------------------------------------------------------------------------
// Asking a collection

/// A new collection has its configuration and no points.
pub proof fn law_new(config: CollectionConfig, r: Collection, key: Seq<char>)
    requires
        call_ensures(Collection::new, (config,), r),
    ensures
        r@.config == config@,
        r@.points.len() == 0,
        r@.point(key) is None,
        (r@.index is Some) == config@.use_hnsw,
        (r@.documents is Some) == config@.enable_bm25,
{
    law_new_collection_is_empty(config@, key);
}

/// What is got under a key is the stored point with that key, and nothing exactly if there is none.
pub proof fn law_get(c: &Collection, id: &str, r: Option<Point>)
    requires
        c.wf(),
        call_ensures(Collection::get, (c, id), r),
    ensures
        (r is None) == forall|i: int| 0 <= i < c@.points.len() ==> (#[trigger] c@.points[i]).key() != id@,
        r matches Some(p) ==> p@.key() == id@ && c@.points.contains(p@),
{
    Collection::law_well_formed(c);
    law_point_found(c@.points, id@);
    if let Some(p) = r {
        let i = choose|i: int| 0 <= i < c@.points.len() && (#[trigger] c@.points[i]).key() == id@;
        assert(c@.points[i] == p@);
    }
}

/// All points are handed out, in their order, and counted.
pub proof fn law_all_points(c: &Collection, all: Vec<Point>, each: Vec<Point>, count: usize, empty: bool)
    requires
        c.wf(),
        call_ensures(Collection::get_all_points, (c,), all),
        call_ensures(Collection::iter, (c,), each),
        call_ensures(Collection::count, (c,), count),
        call_ensures(Collection::is_empty, (c,), empty),
    ensures
        all@.len() == c@.points.len(),
        forall|i: int| 0 <= i < all@.len() ==> (#[trigger] all@[i])@ == c@.points[i],
        each@.len() == c@.points.len(),
        forall|i: int| 0 <= i < each@.len() ==> (#[trigger] each@[i])@ == c@.points[i],
        count == c@.points.len(),
        empty == (count == 0),
{
    assert(points_view(all@).len() == all@.len());
    assert(points_view(each@).len() == each@.len());
    assert forall|i: int| 0 <= i < all@.len() implies (#[trigger] all@[i])@ == c@.points[i] by {
        assert(points_view(all@)[i] == all@[i]@);
    }
    assert forall|i: int| 0 <= i < each@.len() implies (#[trigger] each@[i])@ == c@.points[i] by {
        assert(points_view(each@)[i] == each@[i]@);
    }
}

/// A field is indexed after an index for it was created, of the kind asked for, and not after it was
/// deleted; it is said whether it was there. Other fields are as they were.
pub proof fn law_payload_indexes(
    c: &mut Collection,
    field: &str,
    kind: PayloadIndexType,
    created: Result<bool, Error>,
    other: Seq<char>,
)
    requires
        old(c).wf(),
    ensures
        call_ensures(Collection::create_payload_index, (c, field, kind), created) ==> lookup(
            final(c)@.payload_indexes,
            other,
        ) == if other == field@ {
            Some(kind)
        } else {
            lookup(old(c)@.payload_indexes, other)
        },
        call_ensures(Collection::delete_payload_index, (c, field), created) ==> created == Ok::<bool, Error>(
            lookup(old(c)@.payload_indexes, field@) is Some,
        ) && lookup(final(c)@.payload_indexes, other) == if other == field@ {
            None
        } else {
            lookup(old(c)@.payload_indexes, other)
        },
{
    law_put_then_lookup(old(c)@.payload_indexes, field@, kind);
    if other != field@ {
        law_put_leaves_others(old(c)@.payload_indexes, field@, kind, other);
    }
    law_without_lookup(old(c)@.payload_indexes, field@, other);
}

/// Operations are numbered one after the other.
pub proof fn law_next_operation_id(c: &mut Collection, r: u64)
    requires
        old(c).wf(),
        call_ensures(Collection::next_operation_id, (c,), r),
    ensures
        r == old(c)@.operations,
        final(c)@.operations == (r + 1) % 0x1_0000_0000_0000_0000,
        final(c)@ == (CollectionV { operations: final(c)@.operations, ..old(c)@ }),
{
}

} // verus!
