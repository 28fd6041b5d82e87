//! What requests and messages are answered with and what they change, stated of the functions that
//! serve them.

use vstd::prelude::*;
use crate::grpc;
use crate::rest_write;
use crate::admin::{
    actions_of, behind_prefixes, build_recovery_result, choose_vectors, create_collection,
    distance_named, get_collection, last_part, metrics_endpoint, snapshot_location, total,
    update_aliases, AliasAction, CollectionInfo, CreateCollectionRequest, Recovery,
    SnapshotLocation, SnapshotLocationV, VectorConfig,
};
use crate::admin_laws::{
    actions_in, law_all_alias_actions_read, law_metrics_tell, law_new_configuration,
    law_snapshot_located,
};
use crate::api::{
    hits_of, key_of_json, record_of, shown_hits, ApiError, ApiErrorV, Hit, Record, Shown,
};
use crate::collection::{searches, Collection};
use crate::collection_laws::{law_delete_then_missing, law_search_respects_filter};
use crate::config::{CollectionConfig, Distance};
use crate::entries::{law_put_leaves_others, law_put_then_lookup, law_without_lookup, lookup};
use crate::explore_laws::{
    law_discover_request, law_grouped_search, law_query_groups_request, law_recommend_request,
    law_search_from_examples, recommended_at_most,
};
use crate::grpc_laws::{
    law_all_points_got, law_complete_points_stored, law_incomplete_points_refused,
    law_message_parameters, law_message_recommend, law_message_search, point_complete,
    points_as_given,
};
use crate::grpc_values::{id_of, ids_of, key_of_id, PointIdOptions};
use crate::ieee::Real;
use crate::input::{requested_id, requested_point, requests_of, PointRequest};
use crate::json::{items, texts, Json, JsonV};
use crate::kernels::{gives_example_query, Kernels};
use crate::matching::filter_matches;
use crate::point::{payload_of, Point, PointV};
use crate::read_laws::{
    law_all_looked_up, law_facets_count_points, law_scroll_page, let_through, listed_at,
    listed_behind, lists_all, page_holds, points_having,
};
use crate::recommend::{example_rows, found_like, recommend_points, RecommendRequest};
use crate::request_laws::at_most_first;
use crate::rest_explore::{
    discover_points, grouping, groups_of, groups_or_refusal, query_groups, search_groups, Group,
    GroupsRequest,
};
use crate::rest_read::{
    amount, answers_of, count_points, counts_of, facet_counts, get_point, get_points_by_ids,
    records_of, scroll_number, scroll_offset, scroll_points, ScrollPage, ScrollRequest,
};
use crate::rest_search::{hits_answer, shown_by, unfiltered};
use crate::rest_write::{
    addressed, batch_update, delete_point, delete_points_by_filter, deleted_all, index_type_of,
    keys_in, law_all_deleted, law_upserted_points_found, lemma_deleted_all_counts, listed,
    selected_by, update_vectors, upsert_points, vector_changes, Acknowledged, DeletePointsRequest,
    PayloadChangeV, UpdateVectorPoint,
};
use crate::search_laws::lemma_filter_takes_members;
use crate::store::{keys_distinct, lemma_place_of, place_of, point_under};
use crate::text::{contains_text, decimal_of, starts_with};
use crate::write_laws::{
    has_value, law_batch_runs_all, law_delete_request, law_means_multivector,
    law_multivectors_deleted, law_payloads_changed, law_present_counts, law_upsert_request,
    law_vectors_updated, payload_after,
};

verus! {

// ---------------------------------------------------------------------------------------------
// Reading

/// A page of points: those that match the filter, by their numbers, behind the offset, as many as
/// there are up to as many as asked for, or ten.
pub proof fn law_scroll_points(c: &Collection, req: &ScrollRequest, r: ScrollPage)
    requires
        c.wf(),
        call_ensures(scroll_points, (c, req), r),
    ensures
        exists|listed: Seq<PointV>| #[trigger]
            lists_all(let_through(c@.points, payload_of(req.filter)), listed) && page_holds(
                listed_behind(listed, scroll_offset(payload_of(req.offset))),
                if req.limit is Some {
                    req.limit->0
                } else {
                    10
                },
                (Shown {
                    payload: req.with_payload != Some(false),
                    vector: req.with_vector == Some(true),
                    multivector: false,
                }),
                records_of(r.points@),
                r.next_page_offset,
            ),
{
    Collection::law_well_formed(c);
    let shown = Shown {
        payload: req.with_payload != Some(false),
        vector: req.with_vector == Some(true),
        multivector: false,
    };
    law_scroll_page(
        c@.points,
        amount(req.limit, 10),
        scroll_offset(payload_of(req.offset)),
        payload_of(req.filter),
        shown,
        records_of(r.points@),
        r.next_page_offset,
    );
}

/// Only points that match the filter are on a page, and they are stored.
pub proof fn law_scrolled_points_match(c: &Collection, req: &ScrollRequest, r: ScrollPage, i: int)
    requires
        c.wf(),
        call_ensures(scroll_points, (c, req), r),
        0 <= i < r.points@.len(),
    ensures
        exists|p: PointV|
            {
                &&& #[trigger] c@.points.contains(p)
                &&& req.filter is Some ==> filter_matches(p, req.filter->0@)
                &&& r.points@[i].id@ == p.id
                &&& req.with_payload != Some(false) && p.payload is Some ==> payload_of(r.points@[i].payload) == p.payload
                &&& scroll_offset(payload_of(req.offset)) matches Some(o) ==> scroll_number(p.id) > o
            },
{
    law_scroll_points(c, req, r);
    let filter = payload_of(req.filter);
    let offset = scroll_offset(payload_of(req.offset));
    let listed = choose|listed: Seq<PointV>| #[trigger]
        lists_all(let_through(c@.points, filter), listed) && page_holds(
            listed_behind(listed, offset),
            if req.limit is Some {
                req.limit->0
            } else {
                10
            },
            (Shown {
                payload: req.with_payload != Some(false),
                vector: req.with_vector == Some(true),
                multivector: false,
            }),
            records_of(r.points@),
            r.next_page_offset,
        );
    let rest = listed_behind(listed, offset);
    let keep = |q: PointV| offset is None || scroll_number(q.id) > offset->0;
    let fits = |q: PointV| filter is None || filter_matches(q, filter->0);
    lemma_filter_takes_members(listed, keep);
    lemma_filter_takes_members(c@.points, fits);
    assert(records_of(r.points@)[i] == r.points@[i]@);
    let p = rest[i];
    assert(listed.contains(p) && keep(p));
    let m = choose|m: int| 0 <= m < listed.len() && listed[m] == p;
    let matching = let_through(c@.points, filter);
    let places = choose|places: Seq<int>| #[trigger] listed_at(matching, places, listed);
    assert(listed[m] == matching[places[m]]);
    assert(c@.points.contains(matching[places[m]]) && fits(matching[places[m]]));
}

/// Every identifier that leads to a point is answered with that point, in the order asked for.
pub proof fn law_get_points_by_ids(
    c: &Collection,
    ids: &Vec<Json>,
    with_payload: Option<bool>,
    with_vector: Option<bool>,
    r: Vec<(Json, Record)>,
)
    requires
        c.wf(),
        call_ensures(get_points_by_ids, (c, ids, with_payload, with_vector), r),
    ensures
        answers_of(r@) == items(ids@).filter_map(
            |id: JsonV|
                if key_of_json(id) is Some && point_under(c@.points, key_of_json(id)->0) is Some {
                    Some(
                        (
                            id,
                            record_of(
                                point_under(c@.points, key_of_json(id)->0)->0,
                                Shown {
                                    payload: with_payload != Some(false),
                                    vector: with_vector == Some(true),
                                    multivector: false,
                                },
                                JsonV::Null,
                            ),
                        ),
                    )
                } else {
                    None
                },
        ),
{
    let shown = Shown {
        payload: with_payload != Some(false),
        vector: with_vector == Some(true),
        multivector: false,
    };
    law_all_looked_up(c@.points, items(ids@), shown);
}

/// One point is shown with all that it has, and nothing is shown under a key that leads to none.
pub proof fn law_get_point(c: &Collection, id: &str, r: Option<Record>)
    requires
        call_ensures(get_point, (c, id), r),
    ensures
        (r is Some) == (c@.point(id@) is Some),
        r matches Some(record) ==> {
            let p = c@.point(id@)->0;
            record@.id == p.id && record@.version == p.version && record@.vector == Some(p.vector) && record@.multivector
                == p.multivector && record@.payload == Some(
                if p.payload is Some {
                    p.payload->0
                } else {
                    JsonV::Null
                },
            )
        },
{
}

/// The points are counted.
pub proof fn law_count_points(c: &Collection, r: usize)
    requires
        call_ensures(count_points, (c,), r),
    ensures
        r == c@.points.len(),
{
}

/// Facet counts list texts with the number of points that have them, the highest numbers first, at
/// most as many as asked for, or ten.
pub proof fn law_facet_counts(c: &Collection, key: &str, limit: Option<usize>, r: Vec<(String, u64)>, i: int)
    requires
        c.wf(),
        c@.points.len() < i64::MAX,
        call_ensures(facet_counts, (c, key, limit), r),
        0 <= i < r@.len(),
    ensures
        r@.len() <= if limit is Some {
            limit->0
        } else {
            10
        },
        r@[i].1 == points_having(c@.points, key@, r@[i].0@) > 0,
        forall|j: int| i < j < r@.len() ==> r@[i].1 >= (#[trigger] r@[j]).1 && r@[i].0@ != r@[j].0@,
{
    Collection::law_well_formed(c);
    law_facets_count_points(c@.points, key@, amount(limit, 10), counts_of(r@));
    assert(counts_of(r@)[i] == (r@[i].0@, r@[i].1));
    assert forall|j: int| i < j < r@.len() implies r@[i].1 >= (#[trigger] r@[j]).1 && r@[i].0@ != r@[j].0@ by {
        assert(counts_of(r@)[j] == (r@[j].0@, r@[j].1));
    }
}

// ---------------------------------------------------------------------------------------------
// Deleting and changing

/// A request to delete takes out the points that have the value of its first condition and those
/// that it lists; every other point stays as it was.
pub proof fn law_delete_points(c: &mut Collection, req: &DeletePointsRequest, r: u64, key: Seq<char>)
    requires
        old(c).wf(),
        call_ensures(delete_points_by_filter, (c, req), r),
    ensures
        r == old(c)@.operations,
        final(c)@.operations == (old(c)@.operations + 1) % 0x1_0000_0000_0000_0000,
        final(c)@.point(key) == if (req.must is Some && req.must->0@.len() > 0 && old(c)@.point(key) is Some && has_value(
            old(c)@.point(key)->0,
            req.must->0@[0].key@,
            req.must->0@[0].value@,
        )) || (req.points is Some && keys_in(items(req.points->0@)).contains(key)) {
            None
        } else {
            old(c)@.point(key)
        },
{
    Collection::law_well_formed(&*old(c));
    law_delete_request(old(c)@, req.must, req.points, key);
    lemma_deleted_all_counts(
        old(c)@,
        selected_by(req.must, old(c)@.points),
    );
    lemma_deleted_all_counts(
        deleted_all(old(c)@, selected_by(req.must, old(c)@.points)),
        listed(req.points),
    );
}

/// One point is deleted if it is there; every other point stays as it was.
pub proof fn law_delete_point(c: &mut Collection, id: &str, r: Option<u64>, key: Seq<char>)
    requires
        old(c).wf(),
        call_ensures(delete_point, (c, id), r),
    ensures
        (r is Some) == (old(c)@.point(id@) is Some),
        final(c)@.point(key) == if key == id@ {
            None
        } else {
            old(c)@.point(key)
        },
{
    Collection::law_well_formed(&*old(c));
    law_delete_then_missing(old(c)@, id@, key);
}

/// The keys that a request speaks of, all keys if it lists none, and none twice.
pub open spec fn speaks_of(ids: Option<Vec<Json>>, points: Seq<PointV>, key: Seq<char>) -> bool {
    if ids is Some {
        keys_in(items(ids->0@)).contains(key)
    } else {
        point_under(points, key) is Some
    }
}

proof fn lemma_speaks_of(ids: Option<Vec<Json>>, points: Seq<PointV>, key: Seq<char>)
    requires
        keys_distinct(points),
    ensures
        addressed(ids, points).contains(key) == speaks_of(ids, points, key),
        ids is None ==> addressed(ids, points).no_duplicates(),
{
    if ids is None {
        let keys = addressed(ids, points);
        lemma_place_of(points, key);
        if let Some(i) = place_of(points, key) {
            assert(keys[i] == key);
        }
        if keys.contains(key) {
            let i = choose|i: int| 0 <= i < keys.len() && keys[i] == key;
            assert(points[i].key() == key);
        }
        assert forall|i: int, j: int| 0 <= i < keys.len() && 0 <= j < keys.len() && i != j implies keys[i] != keys[j] by {
            if i < j {
                assert(points[i].key() != points[j].key());
            } else {
                assert(points[j].key() != points[i].key());
            }
        }
    }
}

/// What a change of payloads makes of a point.
pub open spec fn point_after(point: Option<PointV>, spoken_of: bool, change: PayloadChangeV) -> Option<PointV> {
    if point is Some && spoken_of {
        Some(PointV { payload: payload_after(point->0.payload, change), ..point->0 })
    } else {
        point
    }
}

/// Setting payloads merges what is given into the payload of every point that the request speaks
/// of, and changes no other.
pub proof fn law_set_payload(c: &mut Collection, payload: Json, ids: &Option<Vec<Json>>, r: usize, key: Seq<char>)
    requires
        old(c).wf(),
        call_ensures(rest_write::set_payload, (c, payload, ids), r),
        *ids matches Some(list) ==> keys_in(items(list@)).no_duplicates(),
    ensures
        final(c)@.point(key) == point_after(
            old(c)@.point(key),
            speaks_of(*ids, old(c)@.points, key),
            PayloadChangeV::Merge(payload@),
        ),
{
    Collection::law_well_formed(&*old(c));
    lemma_speaks_of(*ids, old(c)@.points, key);
    law_payloads_changed(old(c)@, addressed(*ids, old(c)@.points), PayloadChangeV::Merge(payload@), key);
}

/// Overwriting payloads puts what is given in the place of the payload of every point that the
/// request speaks of, and changes no other.
pub proof fn law_overwrite_payload(c: &mut Collection, payload: Json, ids: &Option<Vec<Json>>, r: usize, key: Seq<char>)
    requires
        old(c).wf(),
        call_ensures(rest_write::overwrite_payload, (c, payload, ids), r),
    ensures
        final(c)@.point(key) == point_after(
            old(c)@.point(key),
            speaks_of(*ids, old(c)@.points, key),
            PayloadChangeV::Overwrite(payload@),
        ),
{
    Collection::law_well_formed(&*old(c));
    lemma_speaks_of(*ids, old(c)@.points, key);
    law_payloads_changed(old(c)@, addressed(*ids, old(c)@.points), PayloadChangeV::Overwrite(payload@), key);
}

/// Deleting payload fields takes the members named from the payload of every point that the request
/// speaks of, and changes no other.
pub proof fn law_delete_payload(c: &mut Collection, names: Vec<String>, ids: &Option<Vec<Json>>, r: usize, key: Seq<char>)
    requires
        old(c).wf(),
        call_ensures(rest_write::delete_payload, (c, names, ids), r),
        *ids matches Some(list) ==> keys_in(items(list@)).no_duplicates(),
    ensures
        final(c)@.point(key) == point_after(
            old(c)@.point(key),
            speaks_of(*ids, old(c)@.points, key),
            PayloadChangeV::DeleteKeys(texts(names@)),
        ),
{
    Collection::law_well_formed(&*old(c));
    lemma_speaks_of(*ids, old(c)@.points, key);
    law_payloads_changed(
        old(c)@,
        addressed(*ids, old(c)@.points),
        PayloadChangeV::DeleteKeys(texts(names@)),
        key,
    );
}

/// Clearing payloads leaves the points that the request speaks of without one, and changes no other;
/// it says how many of the keys lead to a point.
pub proof fn law_clear_payload(c: &mut Collection, ids: &Option<Vec<Json>>, r: usize, key: Seq<char>)
    requires
        old(c).wf(),
        call_ensures(rest_write::clear_payload, (c, ids), r),
    ensures
        final(c)@.point(key) == point_after(
            old(c)@.point(key),
            speaks_of(*ids, old(c)@.points, key),
            PayloadChangeV::Clear,
        ),
        *ids matches Some(list) ==> r == keys_in(items(list@)).filter(
            |key: Seq<char>| point_under(old(c)@.points, key) is Some,
        ).len(),
{
    Collection::law_well_formed(&*old(c));
    lemma_speaks_of(*ids, old(c)@.points, key);
    law_payloads_changed(old(c)@, addressed(*ids, old(c)@.points), PayloadChangeV::Clear, key);
    law_present_counts(old(c)@.points, addressed(*ids, old(c)@.points));
}

/// Other vectors come to the points that the request names, the last one that it gives for each,
/// and nothing else changes.
pub proof fn law_update_vectors<K: Kernels>(
    c: &mut Collection,
    k: &K,
    reqs: &Vec<UpdateVectorPoint>,
    r: usize,
    key: Seq<char>,
)
    requires
        old(c).wf(),
        call_ensures(update_vectors::<K>, (c, k, reqs), r),
    ensures
        (final(c)@.point(key) is Some) == (old(c)@.point(key) is Some),
        final(c)@.point(key) matches Some(p) ==> p == (PointV { vector: p.vector, ..old(c)@.point(key)->0 }),
        (forall|j: int| 0 <= j < vector_changes(reqs@).len() ==> (#[trigger] vector_changes(reqs@)[j]).0 != key)
            ==> final(c)@.point(key) == old(c)@.point(key),
        forall|i: int|
            0 <= i < vector_changes(reqs@).len() && (#[trigger] vector_changes(reqs@)[i]).0 == key && (forall|j: int|
                i < j < vector_changes(reqs@).len() ==> (#[trigger] vector_changes(reqs@)[j]).0 != key) && old(
                c,
            )@.point(key) is Some ==> final(c)@.point(key)->0.vector == vector_changes(reqs@)[i].1,
{
    Collection::law_well_formed(&*old(c));
    law_vectors_updated(k, old(c)@, vector_changes(reqs@), final(c)@, key);
}

/// Points that a request stored are found by the identifiers they were given, as they were given but
/// for their versions, unless a later one in the request has the same identifier.
pub proof fn law_upsert_points<K: Kernels>(
    c: &mut Collection,
    k: &K,
    reqs: &Vec<PointRequest>,
    r: Result<Acknowledged, ApiError>,
    i: int,
)
    requires
        old(c).wf(),
        call_ensures(upsert_points::<K>, (c, k, reqs), r),
        r is Ok,
        0 <= i < reqs@.len(),
        forall|j: int| i < j < reqs@.len() ==> key_of_json((#[trigger] reqs@[j])@.id) != key_of_json(reqs@[i]@.id),
    ensures
        r->Ok_0.operation_id == old(c)@.operations,
        key_of_json(reqs@[i]@.id) is Some,
        final(c)@.point(key_of_json(reqs@[i]@.id)->0) is Some,
        final(c)@.point(key_of_json(reqs@[i]@.id)->0)->0 == (PointV {
            version: final(c)@.point(key_of_json(reqs@[i]@.id)->0)->0.version,
            ..requested_point(requested_id(reqs@[i]@.id)->0, reqs@[i]@.vector, reqs@[i]@.payload)
        }),
{
    Collection::law_well_formed(&*old(c));
    let all = requests_of(reqs@);
    assert forall|j: int| i < j < all.len() implies key_of_json((#[trigger] all[j]).id) != key_of_json(all[i].id) by {
        assert(all[j] == reqs@[j]@);
    }
    law_upserted_points_found(k, old(c)@, all, final(c)@, rest_write::acknowledgement(r), i);
    law_upsert_request(k, old(c)@, all, final(c)@, rest_write::acknowledgement(r));
}

/// The operations of a batch are done one after the other, with an answer for each.
pub proof fn law_batch_update<K: Kernels>(c: &mut Collection, k: &K, operations: &Vec<Json>, r: Vec<bool>)
    requires
        old(c).wf(),
        call_ensures(batch_update::<K>, (c, k, operations), r),
    ensures
        r@.len() == operations@.len(),
        operations@.len() == 0 ==> final(c)@ == old(c)@,
{
    law_batch_runs_all(k, old(c)@, items(operations@), final(c)@, r@);
}

/// Deleting vectors takes the multivectors from the points listed if they are meant, and nothing
/// else.
pub proof fn law_delete_vectors(c: &mut Collection, ids: &Option<Vec<Json>>, names: &Vec<String>, r: usize, key: Seq<char>)
    requires
        old(c).wf(),
        call_ensures(rest_write::delete_vectors, (c, ids, names), r),
    ensures
        final(c)@.point(key) == if old(c)@.point(key) is Some && *ids is Some && keys_in(items(ids->0@)).contains(key) && (
        texts(names@).contains("multivector"@) || texts(names@).contains(Seq::<char>::empty())) {
            Some(PointV { multivector: None, ..old(c)@.point(key)->0 })
        } else {
            old(c)@.point(key)
        },
{
    Collection::law_well_formed(&*old(c));
    law_means_multivector(texts(names@));
    law_multivectors_deleted(old(c)@, listed(*ids), key);
}

/// A payload index that is created is there, of the kind that the schema names. Indexes of other
/// fields stay as they are, and no point changes.
pub proof fn law_create_field_index(c: &mut Collection, field: &str, schema: &Option<Json>, r: u64, other: Seq<char>)
    requires
        old(c).wf(),
        call_ensures(rest_write::create_field_index, (c, field, schema), r),
    ensures
        final(c)@.points == old(c)@.points,
        lookup(final(c)@.payload_indexes, other) == if other == field@ {
            Some(index_type_of(payload_of(*schema)))
        } else {
            lookup(old(c)@.payload_indexes, other)
        },
{
    law_put_then_lookup(old(c)@.payload_indexes, field@, index_type_of(payload_of(*schema)));
    if other != field@ {
        law_put_leaves_others(old(c)@.payload_indexes, field@, index_type_of(payload_of(*schema)), other);
    }
}

/// A field whose index is deleted is no longer indexed, and every other field as before.
pub proof fn law_delete_field_index(c: &mut Collection, field: &str, r: u64, other: Seq<char>)
    requires
        old(c).wf(),
        call_ensures(rest_write::delete_field_index, (c, field), r),
    ensures
        final(c)@.points == old(c)@.points,
        lookup(final(c)@.payload_indexes, other) == if other == field@ {
            None
        } else {
            lookup(old(c)@.payload_indexes, other)
        },
{
    law_without_lookup(old(c)@.payload_indexes, field@, other);
}

// ---------------------------------------------------------------------------------------------
// Exploring

/// Recommendations: without a stored example that is liked the request is refused. Otherwise a search
/// near the query that all stored examples make goes through as many points as are asked for, or ten,
/// and as many more as there are different examples; the examples are left out, so is what scores
/// below the threshold, and the first of the rest are shown.
pub proof fn law_recommend_points<K: Kernels>(
    c: &mut Collection,
    k: &K,
    req: &RecommendRequest,
    r: Result<Vec<Hit>, ApiError>,
)
    requires
        old(c).wf(),
        call_ensures(recommend_points::<K>, (c, k, req), r),
    ensures
        (r is Err) == (forall|i: int|
            0 <= i < keys_in(items(req.positive@)).len() ==> point_under(
                old(c)@.points,
                #[trigger] keys_in(items(req.positive@))[i],
            ) is None),
        r is Ok ==> exists|query: Seq<Real>, found: Seq<(PointV, Real)>| #[trigger]
            gives_example_query(
                k,
                example_rows(old(c)@.points, keys_in(items(req.positive@))),
                example_rows(old(c)@.points, keys_in(items(req.negative@))),
                query,
            ) && #[trigger] searches(
                k,
                old(c)@,
                query,
                (amount(req.limit, 10) + (keys_in(items(req.positive@)) + keys_in(
                    items(req.negative@),
                )).to_set().len()) as usize,
                unfiltered(),
                final(c)@,
                found,
            ) && hits_of(r->Ok_0@) == shown_hits(
                at_most_first(
                    found.filter(
                        |h: (PointV, Real)|
                            !keys_in(items(req.positive@)).contains(h.0.key()) && !keys_in(
                                items(req.negative@),
                            ).contains(h.0.key()),
                    ).filter(
                        |h: (PointV, Real)| req.score_threshold is None || !h.1.less(req.score_threshold->0),
                    ),
                    recommended_at_most(req.limit),
                ),
                shown_by(req.with_payload, req.with_vector),
            ),
{
    let liked = keys_in(items(req.positive@));
    let disliked = keys_in(items(req.negative@));
    law_recommend_request(k, old(c)@, *req, final(c)@, hits_answer(r));
    if r is Ok {
        let scoring = |h: (PointV, Real)| req.score_threshold is None || !h.1.less(req.score_threshold->0);
        let rest = choose|rest: Seq<(PointV, Real)>| #[trigger]
            found_like(k, old(c)@, liked, disliked, amount(req.limit, 10), final(c)@, rest) && hits_answer(r)->Ok_0
                == shown_hits(
                at_most_first(rest.filter(scoring), recommended_at_most(req.limit)),
                shown_by(req.with_payload, req.with_vector),
            );
        law_search_from_examples(k, old(c)@, liked, disliked, amount(req.limit, 10), final(c)@, rest);
    }
}

/// A discovery shows what is found near its target, at most as many as asked for, or ten.
pub proof fn law_discover_points<K: Kernels>(
    c: &mut Collection,
    k: &K,
    target: &Option<Json>,
    limit: Option<usize>,
    with_payload: Option<bool>,
    r: Result<Vec<Hit>, ApiError>,
    key: Seq<char>,
    p: PointV,
)
    requires
        old(c).wf(),
        call_ensures(discover_points::<K>, (c, k, target, limit, with_payload), r),
        payload_of(*target) == Some(JsonV::Text(key)),
        old(c)@.point(key) == Some(p),
    ensures
        r is Ok,
        exists|found: Seq<(PointV, Real)>| #[trigger]
            searches(k, old(c)@, p.vector, amount(limit, 10), unfiltered(), final(c)@, found) && hits_of(r->Ok_0@)
                == shown_hits(
                found,
                (Shown { payload: with_payload != Some(false), vector: false, multivector: false }),
            ),
{
    law_discover_request(
        k,
        old(c)@,
        payload_of(*target),
        amount(limit, 10),
        with_payload != Some(false),
        final(c)@,
        hits_answer(r),
    );
}

/// A grouped search: of twice as many points as there is room for, the first groups in the order in
/// which they come up, each with the first of its members; five groups of three unless the request
/// says otherwise.
pub proof fn law_search_groups<K: Kernels>(
    c: &mut Collection,
    k: &K,
    vector: &Vec<Real>,
    req: &GroupsRequest,
    r: Vec<Group>,
)
    requires
        old(c).wf(),
        2 * amount(req.limit, 5) * amount(req.group_size, 3) <= usize::MAX,
        call_ensures(search_groups::<K>, (c, k, vector, req), r),
    ensures
        exists|found: Seq<(PointV, Real)>| #[trigger]
            searches(
                k,
                old(c)@,
                vector@,
                (2 * amount(req.limit, 5) * amount(req.group_size, 3)) as usize,
                unfiltered(),
                final(c)@,
                found,
            ) && groups_of(r@) == at_most_first(
                grouping(
                    found,
                    req.group_by@,
                    amount(req.limit, 5),
                    amount(req.group_size, 3),
                    shown_by(req.with_payload, req.with_vector),
                ),
                amount(req.limit, 5),
            ),
{
    law_grouped_search(
        k,
        old(c)@,
        vector@,
        req.group_by@,
        amount(req.limit, 5),
        amount(req.group_size, 3),
        shown_by(req.with_payload, req.with_vector),
        final(c)@,
        groups_of(r@),
    );
}

// ---------------------------------------------------------------------------------------------
// Messages

/// Of the points asked for by a message, those that are there are sent, in order.
pub proof fn law_message_get(c: &Collection, ids: &Vec<Option<PointIdOptions>>, r: Vec<grpc::RetrievedPoint>)
    requires
        c.wf(),
        call_ensures(grpc::get, (c, ids), r),
    ensures
        grpc::retrieved_of(r@) == grpc::sent_all(
            grpc::keys_of_ids(ids_of(ids@)).filter_map(|key: Seq<char>| point_under(c@.points, key)),
        ),
{
    law_all_points_got(c@.points, grpc::keys_of_ids(ids_of(ids@)));
}

/// The points that a message selects are deleted, and no others.
pub proof fn law_message_delete(c: &mut Collection, selection: &Option<Vec<Option<PointIdOptions>>>, key: Seq<char>)
    requires
        old(c).wf(),
        call_ensures(grpc::delete, (c, selection), ()),
    ensures
        final(c)@.point(key) == if *selection is Some && grpc::keys_of_ids(ids_of(selection->0@)).contains(key) {
            None
        } else {
            old(c)@.point(key)
        },
{
    Collection::law_well_formed(&*old(c));
    law_all_deleted(old(c)@, grpc::selected_keys(*selection), key);
}

/// A message to search is answered with what a search without a filter finds.
pub proof fn law_message_searched<K: Kernels>(
    c: &mut Collection,
    k: &K,
    vector: Vec<Real>,
    limit: usize,
    r: Vec<grpc::ScoredPoint>,
)
    requires
        old(c).wf(),
        call_ensures(grpc::search::<K>, (c, k, vector, limit), r),
    ensures
        r@.len() <= limit,
        exists|found: Seq<(PointV, Real)>| #[trigger]
            searches(k, old(c)@, vector@, limit, unfiltered(), final(c)@, found) && grpc::scored_points_of(r@)
                == grpc::sent_scored_all(found),
{
    let found = choose|found: Seq<(PointV, Real)>| #[trigger]
        searches(k, old(c)@, vector@, limit, unfiltered(), final(c)@, found) && grpc::scored_points_of(r@)
            == grpc::sent_scored_all(found);
    law_search_respects_filter(k, old(c)@, vector@, limit, unfiltered(), final(c)@, found);
    assert(grpc::scored_points_of(r@).len() == r@.len());
}

/// A message for a page is answered with the points behind the one that it starts from, at most as
/// many as asked for, or ten.
pub proof fn law_message_scrolled(
    c: &Collection,
    offset: &Option<PointIdOptions>,
    limit: Option<u32>,
    r: (Vec<grpc::RetrievedPoint>, Option<PointIdOptions>),
)
    requires
        c.wf(),
        call_ensures(grpc::scroll, (c, offset, limit), r),
    ensures
        r.0@.len() <= if limit is Some {
            limit->0
        } else {
            10
        },
        *offset is None ==> grpc::retrieved_of(r.0@) == grpc::sent_all(
            c@.points.take(
                if grpc::page_limit(limit) <= c@.points.len() {
                    grpc::page_limit(limit) as int
                } else {
                    c@.points.len() as int
                },
            ),
        ),
        (r.1 is Some) == (r.0@.len() == grpc::page_limit(limit) && grpc::page_limit(limit) > 0),
{
    let this = grpc::page(c@.points, key_of_id(id_of(*offset)), grpc::page_limit(limit));
    assert(grpc::retrieved_of(r.0@).len() == r.0@.len());
    if *offset is None {
        assert(c@.points.skip(0) =~= c@.points);
        assert(this =~= c@.points.take(
            if grpc::page_limit(limit) <= c@.points.len() {
                grpc::page_limit(limit) as int
            } else {
                c@.points.len() as int
            },
        ));
    }
}

/// A message with a point that lacks its identifier or its vector is refused for the first such point,
/// and stores nothing. Otherwise all points are stored as the message gives them.
pub proof fn law_message_upserted<K: Kernels>(
    c: &mut Collection,
    k: &K,
    ps: &Vec<grpc::PointStruct>,
    r: Result<Option<Vec<Point>>, grpc::Refusal>,
    i: int,
)
    requires
        old(c).wf(),
        call_ensures(grpc::upsert::<K>, (c, k, ps), r),
    ensures
        0 <= i < ps@.len() && !point_complete(ps@[i]) && (forall|j: int| 0 <= j < i ==> point_complete(#[trigger] ps@[j]))
            ==> final(c)@ == old(c)@ && r is Err && r->Err_0 == if ps@[i].id is None {
            grpc::Refusal::PointIdRequired
        } else {
            grpc::Refusal::VectorRequired
        },
        (forall|j: int| 0 <= j < ps@.len() ==> point_complete(#[trigger] ps@[j])) ==> (r is Err ==> r->Err_0 is Core)
            && exists|points: Seq<PointV>| #[trigger]
            points_as_given(k, ps@, points) && rest_write::stores_points(
                k,
                old(c)@,
                points,
                false,
                final(c)@,
                match grpc::job_of(r) {
                    Ok(job) => Ok(job),
                    Err(e) => Err(e->Core_0),
                },
            ),
{
    if 0 <= i < ps@.len() && !point_complete(ps@[i]) && (forall|j: int|
        0 <= j < i ==> point_complete(#[trigger] ps@[j])) {
        law_incomplete_points_refused(k, old(c)@, ps@, final(c)@, grpc::job_of(r), i);
    }
    if forall|j: int| 0 <= j < ps@.len() ==> point_complete(#[trigger] ps@[j]) {
        law_complete_points_stored(k, old(c)@, ps@, final(c)@, grpc::job_of(r));
    }
}

/// The vector that a message gives: the plain one, or the first of the named ones.
pub open spec fn vector_given(vector: grpc::VectorVariant) -> Seq<Real> {
    match vector {
        grpc::VectorVariant::Dense(data) => data@,
        grpc::VectorVariant::Named(named) => named@[0].1@,
    }
}

/// A message with a query is answered with what a search without a filter finds near the
/// vector that it gives; without one it is refused.
pub proof fn law_message_queried<K: Kernels>(
    c: &mut Collection,
    k: &K,
    vector: &Option<grpc::VectorVariant>,
    limit: usize,
    r: Result<Vec<grpc::ScoredPoint>, grpc::Refusal>,
)
    requires
        old(c).wf(),
        call_ensures(grpc::query::<K>, (c, k, vector, limit), r),
    ensures
        (r is Ok) == match *vector {
            Some(grpc::VectorVariant::Dense(_)) => true,
            Some(grpc::VectorVariant::Named(named)) => named@.len() > 0,
            None => false,
        },
        r is Err ==> final(c)@ == old(c)@ && r->Err_0 == grpc::Refusal::QueryVectorRequired,
        r is Ok ==> r->Ok_0@.len() <= limit,
        r is Ok ==> exists|found: Seq<(PointV, Real)>| #[trigger]
            searches(
                k,
                old(c)@,
                vector_given(vector->0),
                limit,
                unfiltered(),
                final(c)@,
                found,
            ) && grpc::scored_points_of(r->Ok_0@) == grpc::sent_scored_all(found),
{
    let query = grpc::dense_of(*vector);
    law_message_search(k, old(c)@, query, limit, final(c)@, grpc::found_or_refusal(r));
    if r is Ok {
        let found = choose|found: Seq<(PointV, Real)>| #[trigger]
            searches(k, old(c)@, query->0, limit, unfiltered(), final(c)@, found) && grpc::scored_points_of(r->Ok_0@)
                == grpc::sent_scored_all(found);
        law_search_respects_filter(k, old(c)@, query->0, limit, unfiltered(), final(c)@, found);
        assert(query->0 == vector_given(vector->0));
        assert(searches(k, old(c)@, vector_given(vector->0), limit, unfiltered(), final(c)@, found));
        assert(grpc::scored_points_of(r->Ok_0@).len() == r->Ok_0@.len());
    }
}

/// A message for recommendations is answered with points that are none of its examples, at most as
/// many as asked for, found near the query that all stored examples make; without a stored example
/// that is liked it is refused.
pub proof fn law_message_recommended<K: Kernels>(
    c: &mut Collection,
    k: &K,
    positive: &Vec<Option<PointIdOptions>>,
    negative: &Vec<Option<PointIdOptions>>,
    limit: usize,
    r: Result<Vec<grpc::ScoredPoint>, grpc::Refusal>,
)
    requires
        old(c).wf(),
        call_ensures(grpc::recommend::<K>, (c, k, positive, negative, limit), r),
    ensures
        (r is Err) == forall|i: int|
            0 <= i < grpc::keys_of_ids(ids_of(positive@)).len() ==> point_under(
                old(c)@.points,
                #[trigger] grpc::keys_of_ids(ids_of(positive@))[i],
            ) is None,
        r is Err ==> final(c)@ == old(c)@ && r->Err_0 == grpc::Refusal::PositiveRequired,
        r is Ok ==> exists|query: Seq<Real>, found: Seq<(PointV, Real)>| #[trigger]
            gives_example_query(
                k,
                example_rows(old(c)@.points, grpc::keys_of_ids(ids_of(positive@))),
                example_rows(old(c)@.points, grpc::keys_of_ids(ids_of(negative@))),
                query,
            ) && #[trigger] searches(
                k,
                old(c)@,
                query,
                (limit + (grpc::keys_of_ids(ids_of(positive@)) + grpc::keys_of_ids(ids_of(negative@))).to_set().len()) as usize,
                unfiltered(),
                final(c)@,
                found,
            ) && grpc::scored_points_of(r->Ok_0@) == grpc::sent_scored_all(
                at_most_first(
                    found.filter(
                        |h: (PointV, Real)|
                            !grpc::keys_of_ids(ids_of(positive@)).contains(h.0.key()) && !grpc::keys_of_ids(
                                ids_of(negative@),
                            ).contains(h.0.key()),
                    ),
                    limit,
                ),
            ),
{
    let liked = grpc::keys_of_ids(ids_of(positive@));
    let disliked = grpc::keys_of_ids(ids_of(negative@));
    law_message_recommend(k, old(c)@, liked, disliked, limit, final(c)@, grpc::found_or_refusal(r));
    if r is Ok {
        let rest = choose|rest: Seq<(PointV, Real)>| #[trigger]
            found_like(k, old(c)@, liked, disliked, limit, final(c)@, rest) && grpc::found_or_refusal(r)->Ok_0
                == grpc::sent_scored_all(at_most_first(rest, limit));
        law_search_from_examples(k, old(c)@, liked, disliked, limit, final(c)@, rest);
    }
}

// ---------------------------------------------------------------------------------------------
// Collections and snapshots

/// A collection that a message creates has the name, the length of vectors and the distance that the
/// message gives, a vector index and no text index; without parameters the message is refused.
pub proof fn law_message_created(
    name: String,
    vectors: &Option<grpc::VectorsConfig>,
    p: grpc::VectorParams,
    r: Result<CollectionConfig, grpc::Refusal>,
)
    requires
        call_ensures(grpc::create, (name, vectors), r),
    ensures
        (r is Ok) == match *vectors {
            Some(grpc::VectorsConfig::Params(_)) => true,
            Some(grpc::VectorsConfig::ParamsMap(named)) => named@.len() > 0,
            None => false,
        },
        (vectors matches Some(grpc::VectorsConfig::Params(q)) && q == p) || (
        vectors matches Some(grpc::VectorsConfig::ParamsMap(named)) && named@.len() > 0 && named@[0].1 == p) ==> r is Ok
            && r->Ok_0@.name == name@ && r->Ok_0@.vector_dim == p.size && r->Ok_0@.distance == grpc::core_distance(
            p.distance,
        ) && r->Ok_0@.use_hnsw && !r->Ok_0@.enable_bm25,
{
    if let Some(grpc::VectorsConfig::ParamsMap(named)) = *vectors {
        law_message_parameters(p, named);
    }
}

/// A collection that a request creates has the name, the length of vectors, the distance and the
/// indexes that the request asks for; it is refused if it configures no vectors at all.
pub proof fn law_create_collection(
    name: String,
    req: &CreateCollectionRequest,
    r: Result<CollectionConfig, ApiError>,
)
    requires
        call_ensures(create_collection, (name, req), r),
    ensures
        (r is Err) == (req.vectors is None && !req.sparse_vectors),
        r is Err ==> r->Err_0@ == ApiErrorV::VectorsRequired,
        r is Ok ==> {
            let config = r->Ok_0@;
            &&& config.name == name@
            &&& config.use_hnsw == req.use_hnsw
            &&& config.enable_bm25 == (req.enable_bm25 || req.sparse_vectors)
            &&& config.vector_dim == if req.vectors is Some {
                req.vectors->0.size
            } else {
                0
            }
            &&& config.distance == if req.vectors is Some {
                distance_named(req.vectors->0@.distance)
            } else {
                Distance::Cosine
            }
        },
{
    law_new_configuration(name@, *req);
}

/// Every action on aliases in a request counts, in order.
pub proof fn law_update_aliases(actions: &Vec<Json>, r: Vec<AliasAction>)
    requires
        call_ensures(update_aliases, (actions,), r),
    ensures
        actions_of(r@) == items(actions@).map_values(|a: JsonV| actions_in(a)).flatten_alt(),
{
    law_all_alias_actions_read(items(actions@));
}

/// A snapshot is looked for at its address if that is one of the web; a file is meant by what stands
/// behind the last slash, and anything else is a name.
pub proof fn law_snapshot_location(location: &str, r: SnapshotLocation)
    requires
        call_ensures(snapshot_location, (location,), r),
    ensures
        (r@ is Url) == (starts_with(location@, "http://"@) || starts_with(location@, "https://"@)),
        r@ is Url ==> r@ == SnapshotLocationV::Url(location@),
        r@ is Name ==> r@->Name_0 == if starts_with(location@, "file://"@) {
            last_part(behind_prefixes(location@, "file://"@), '/')
        } else {
            location@
        },
{
    law_snapshot_located(location@);
}

/// The numbers in a list, in single precision.
pub open spec fn numbers_in(list: Seq<JsonV>) -> Seq<Real> {
    Seq::new(list.len(), |i: int| list[i]->Number_0.single)
}

/// A query with grouping searches near its vector for twice as many points as there is room for in all
/// groups, and shows the first groups; a query that is no list of numbers is refused.
pub proof fn law_query_groups<K: Kernels>(
    c: &mut Collection,
    k: &K,
    query: &Json,
    req: &GroupsRequest,
    r: Result<Vec<Group>, ApiError>,
)
    requires
        old(c).wf(),
        2 * amount(req.limit, 5) * amount(req.group_size, 3) <= usize::MAX,
        call_ensures(query_groups::<K>, (c, k, query, req), r),
    ensures
        (r is Ok) == (query@ is Array && forall|i: int|
            0 <= i < query@->Array_0.len() ==> (#[trigger] query@->Array_0[i]) is Number),
        r is Err ==> final(c)@ == old(c)@,
        r is Ok ==> exists|found: Seq<(PointV, Real)>| #[trigger]
            searches(
                k,
                old(c)@,
                numbers_in(query@->Array_0),
                (2 * amount(req.limit, 5) * amount(req.group_size, 3)) as usize,
                unfiltered(),
                final(c)@,
                found,
            ) && groups_of(r->Ok_0@) == at_most_first(
                grouping(
                    found,
                    req.group_by@,
                    amount(req.limit, 5),
                    amount(req.group_size, 3),
                    shown_by(req.with_payload, req.with_vector),
                ),
                amount(req.limit, 5),
            ),
{
    law_query_groups_request(k, old(c)@, query@, *req, final(c)@, groups_or_refusal(r));
    if r is Ok {
        law_grouped_search(
            k,
            old(c)@,
            numbers_in(query@->Array_0),
            req.group_by@,
            amount(req.limit, 5),
            amount(req.group_size, 3),
            shown_by(req.with_payload, req.with_vector),
            final(c)@,
            groups_of(r->Ok_0@),
        );
    }
}

/// What is said of a collection: how many points it has, every one of them indexed and with a vector,
/// and its length of vectors and distance.
pub proof fn law_get_collection(c: &Collection, threshold: u64, r: CollectionInfo)
    requires
        c.wf(),
        call_ensures(get_collection, (c, threshold), r),
    ensures
        r.points_count == c@.points.len(),
        r.vectors_count == c@.points.len(),
        r.indexed_vectors_count == c@.points.len(),
        r.vector_dim == c@.config.vector_dim,
        r.distance == c@.config.distance,
        r.optimizer_config.indexing_threshold == threshold,
{
}

/// What is said of a recovered collection: its name, its length of vectors and how many points it has;
/// a note comes exactly with one that has none.
pub proof fn law_recovery_result(c: &Collection, r: Recovery)
    requires
        c.wf(),
        call_ensures(build_recovery_result, (c,), r),
    ensures
        r.collection@ == c@.config.name,
        r.vector_dim == c@.config.vector_dim,
        r.points_count == c@.points.len(),
        (r.note is Some) == (c@.points.len() == 0),
{
}

/// One description of vectors counts before any with names, and of those the first; what reads as
/// neither is refused, and nothing given is no fault.
pub proof fn law_choose_vectors(
    given: bool,
    single: Option<VectorConfig>,
    named: Vec<VectorConfig>,
    r: Result<Option<VectorConfig>, String>,
)
    requires
        call_ensures(choose_vectors, (given, single, named), r),
    ensures
        (r is Err) == (given && single is None && named@.len() == 0),
        !given ==> r is Ok && r->Ok_0 is None,
        given && single is Some ==> r is Ok && r->Ok_0 is Some && r->Ok_0->0@ == single->0@,
        given && single is None && named@.len() > 0 ==> r is Ok && r->Ok_0 is Some && r->Ok_0->0@ == named@[0]@,
{
}

/// The metrics tell the version, how many collections there are and how many points in all of them.
pub proof fn law_metrics_endpoint(version: &str, collections: usize, counts: &Vec<u64>, r: String)
    requires
        call_ensures(metrics_endpoint, (version, collections, counts), r),
    ensures
        contains_text(r@, version@),
        contains_text(r@, decimal_of(collections as nat)),
        contains_text(r@, decimal_of(total(counts@) as nat)),
{
    law_metrics_tell(version@, collections as nat, total(counts@) as nat);
}

} // verus!
