//! What requests that change a collection do to it.

use vstd::prelude::*;
use crate::api::{key_of_json, ApiErrorV};
use crate::collection::{
    batch_answers, batch_ended, batch_started, deleted, index_inserts, indexed_text,
    multivector_set, rebuild_answer, refuses, stores_next, stores_through, upsert_answers, upserts,
    upserts_all, vector_updates, warms, without_node, CollectionV, Error, MAX_CONNECTIONS,
    MAX_LAYERS,
};
use crate::collection_laws::{
    law_batch_stores_all, law_changed_then_get, law_upsert_then_get, law_vector_updated_then_get,
    lemma_distinct_so_far, lemma_stored_so_far,
};
use crate::config::PayloadIndexType;
use crate::entries::{law_put_leaves_others, law_without_lookup, lookup};
use crate::graph::HnswNodeV;
use crate::hnsw::{inserts, last_node, law_insert_adds_point, points_of};
use crate::ieee::Real;
use crate::input::{numbers, point_in, requested_id, requested_points, PointRequestV};
use crate::json::{items, merged, stripped, Json, JsonV};
use crate::kernels::{gives_normalized, Kernels};
use crate::point::PointV;
use crate::rest_write::{
    addressed, array_under, changed, changed_all, changed_keys, counted, deleted_all,
    index_type_named, index_type_of, keys_in, keys_where, law_all_deleted, listed,
    means_multivector, multivectors_dropped, new_vector, operates, operates_all, operates_next,
    operates_through, payload_operation, points_in, present, selected_by, stores_points, texts_in,
    tries_all, tries_next, tries_through, updates_all, updates_next, updates_through,
    upsert_points_answers, vector_changes, FilterMust, PayloadChangeV, UpdateVectorPoint,
};
use crate::search_laws::law_built_index_holds_all;
use crate::store::{keys_distinct, lemma_place_is, lemma_place_of, place_of, point_under};

verus! {

// ---------------------------------------------------------------------------------------------
// Identifiers

/// Every identifier in a list that is one counts, in the order of the list.
pub proof fn law_all_keys_read(ids: Seq<JsonV>)
    ensures
        keys_in(ids) == ids.filter_map(|id: JsonV| key_of_json(id)),
    decreases ids.len(),
{
    reveal(Seq::filter_map);
    if ids.len() > 0 {
        law_all_keys_read(ids.drop_last());
        let rest = ids.drop_last().filter_map(|id: JsonV| key_of_json(id));
        if let Some(key) = key_of_json(ids.last()) {
            assert(rest.push(key) =~= rest + seq![key]);
        }
    } else {
        assert(keys_in(ids) =~= ids.filter_map(|id: JsonV| key_of_json(id)));
    }
}

/// A request that lists no points speaks of all of them, one that lists some of those.
pub proof fn law_addressed(ids: Vec<Json>, points: Seq<PointV>)
    ensures
        addressed(Some(ids), points) == keys_in(items(ids@)),
        addressed(None, points).len() == points.len(),
        forall|i: int| 0 <= i < points.len() ==> addressed(None, points)[i] == (#[trigger] points[i]).key(),
{
}

/// How many of the keys of a request lead to a point.
pub proof fn law_present_counts(points: Seq<PointV>, keys: Seq<Seq<char>>)
    ensures
        present(points, keys) == keys.filter(|key: Seq<char>| point_under(points, key) is Some).len(),
    decreases keys.len(),
{
    reveal(Seq::filter);
    if keys.len() > 0 {
        law_present_counts(points, keys.drop_last());
    }
}

/// An operation that is given a number changes nothing but the counter, which goes on by one and
/// begins again at zero behind the largest number.
pub proof fn law_operations_counted(c: CollectionV)
    ensures
        counted(c) == (CollectionV { operations: counted(c).operations, ..c }),
        counted(c).operations == (c.operations + 1) % 0x1_0000_0000_0000_0000,
{
}

// ---------------------------------------------------------------------------------------------
// Deleting

/// A point has a value at a field.
pub open spec fn has_value(point: PointV, field: Seq<char>, value: JsonV) -> bool {
    &&& point.payload is Some
    &&& point.payload->0.get(field) is Some
    &&& point.payload->0.get(field)->0.same(value)
}

/// The points that a condition selects for deletion are those that have the value at the field.
pub proof fn law_selected_for_deletion(points: Seq<PointV>, field: Seq<char>, value: JsonV)
    ensures
        keys_where(points, field, value) == points.filter_map(
            |p: PointV|
                if has_value(p, field, value) {
                    Some(p.key())
                } else {
                    None
                },
        ),
        forall|key: Seq<char>| #[trigger]
            keys_where(points, field, value).contains(key) == exists|i: int|
                0 <= i < points.len() && has_value(#[trigger] points[i], field, value) && points[i].key() == key,
    decreases points.len(),
{
    reveal(Seq::filter_map);
    let f = |p: PointV|
        if has_value(p, field, value) {
            Some(p.key())
        } else {
            None
        };
    let all = keys_where(points, field, value);
    if points.len() > 0 {
        let rest = points.drop_last();
        law_selected_for_deletion(rest, field, value);
        let earlier = keys_where(rest, field, value);
        if let Some(key) = f(points.last()) {
            assert(rest.filter_map(f).push(key) =~= rest.filter_map(f) + seq![key]);
        }
        assert forall|key: Seq<char>| #[trigger] all.contains(key) == exists|i: int|
            0 <= i < points.len() && has_value(#[trigger] points[i], field, value) && points[i].key() == key by {
            if all.contains(key) {
                let m = choose|m: int| 0 <= m < all.len() && all[m] == key;
                if m < earlier.len() {
                    assert(earlier[m] == key);
                    assert(earlier.contains(key));
                    let i = choose|i: int|
                        0 <= i < rest.len() && has_value(#[trigger] rest[i], field, value) && rest[i].key() == key;
                    assert(points[i] == rest[i]);
                } else {
                    assert(has_value(points[points.len() - 1], field, value));
                }
            }
            if exists|i: int|
                0 <= i < points.len() && has_value(#[trigger] points[i], field, value) && points[i].key() == key {
                let i = choose|i: int|
                    0 <= i < points.len() && has_value(#[trigger] points[i], field, value) && points[i].key() == key;
                if i < rest.len() {
                    assert(rest[i] == points[i]);
                    assert(earlier.contains(key));
                    let m = choose|m: int| 0 <= m < earlier.len() && earlier[m] == key;
                    assert(all[m] == key);
                } else {
                    assert(all[all.len() - 1] == key);
                }
            }
        }
    } else {
        assert(all =~= points.filter_map(f));
    }
}

/// A request to delete takes out the points that have the value of its first condition, and those
/// that it lists; every other point stays as it was.
pub proof fn law_delete_request(
    before: CollectionV,
    must: Option<Vec<FilterMust>>,
    ids: Option<Vec<Json>>,
    key: Seq<char>,
)
    requires
        keys_distinct(before.points),
    ensures
        counted(deleted_all(deleted_all(before, selected_by(must, before.points)), listed(ids))).point(key) == if (
        must is Some && must->0@.len() > 0 && before.point(key) is Some && has_value(
            before.point(key)->0,
            must->0@[0].key@,
            must->0@[0].value@,
        )) || (ids is Some && keys_in(items(ids->0@)).contains(key)) {
            None
        } else {
            before.point(key)
        },
{
    let selected = selected_by(must, before.points);
    law_all_deleted(before, selected, key);
    law_all_deleted(deleted_all(before, selected), listed(ids), key);
    lemma_place_of(before.points, key);
    if must is Some && must->0@.len() > 0 {
        let field = must->0@[0].key@;
        let value = must->0@[0].value@;
        law_selected_for_deletion(before.points, field, value);
        if selected.contains(key) {
            let i = choose|i: int|
                0 <= i < before.points.len() && has_value(#[trigger] before.points[i], field, value)
                    && before.points[i].key() == key;
            lemma_place_is(before.points, i);
        }
        if before.point(key) is Some && has_value(before.point(key)->0, field, value) {
            let i = place_of(before.points, key)->0;
            assert(has_value(before.points[i], field, value) && before.points[i].key() == key);
        }
    }
}

/// What is deleted leaves the text index and the vector index, and nothing else leaves them.
pub proof fn law_delete_leaves_indexes(before: CollectionV, key: Seq<char>, other: Seq<char>)
    ensures
        (deleted(before, key).documents is Some) == (before.documents is Some),
        before.documents is Some ==> lookup(deleted(before, key).documents->0, other) == if other == key {
            None
        } else {
            lookup(before.documents->0, other)
        },
        (deleted(before, key).index is Some) == (before.index is Some),
        before.index is Some ==> match last_node(before.index->0, key) {
            Some(i) => points_of(deleted(before, key).index->0) == points_of(before.index->0).remove(i),
            None => deleted(before, key).index == before.index,
        },
        before.point(key) is Some ==> deleted(before, key).points.len() == before.points.len() - 1,
        before.point(key) is None ==> deleted(before, key).points == before.points,
        deleted(before, key).config == before.config,
        deleted(before, key).operations == before.operations,
        deleted(before, key).payload_indexes == before.payload_indexes,
{
    lemma_place_of(before.points, key);
    if before.documents is Some {
        law_without_lookup(before.documents->0, key, other);
    }
    if before.index is Some {
        let nodes = before.index->0;
        lemma_last_node(nodes, key);
        if let Some(i) = last_node(nodes, key) {
            assert(points_of(nodes.remove(i)) =~= points_of(nodes).remove(i));
        }
    }
}

proof fn lemma_last_node(nodes: Seq<HnswNodeV>, key: Seq<char>)
    ensures
        match last_node(nodes, key) {
            Some(i) => 0 <= i < nodes.len() && nodes[i].point.key() == key,
            None => forall|i: int| 0 <= i < nodes.len() ==> (#[trigger] nodes[i]).point.key() != key,
        },
    decreases nodes.len(),
{
    if nodes.len() > 0 && nodes.last().point.key() != key {
        lemma_last_node(nodes.drop_last(), key);
        if last_node(nodes, key) is None {
            assert forall|i: int| 0 <= i < nodes.len() implies (#[trigger] nodes[i]).point.key() != key by {
                if i < nodes.len() - 1 {
                    assert(nodes.drop_last()[i] == nodes[i]);
                }
            }
        }
    }
}

// ---------------------------------------------------------------------------------------------
// Payloads

/// What a change makes of a payload.
pub open spec fn payload_after(payload: Option<JsonV>, change: PayloadChangeV) -> Option<JsonV> {
    match change {
        PayloadChangeV::Merge(new) => if payload is Some {
            Some(merged(payload->0, new))
        } else {
            Some(new)
        },
        PayloadChangeV::Overwrite(new) => Some(new),
        PayloadChangeV::DeleteKeys(keys) => if payload is Some {
            Some(stripped(payload->0, keys))
        } else {
            None
        },
        PayloadChangeV::Clear => None,
    }
}

/// A change of a payload leaves everything else of the point and all other points as they were.
pub proof fn law_payload_changed(before: CollectionV, key: Seq<char>, change: PayloadChangeV, other: Seq<char>)
    requires
        keys_distinct(before.points),
    ensures
        keys_distinct(changed(before, key, change).points),
        changed(before, key, change).points.len() == before.points.len(),
        changed(before, key, change) == (CollectionV { points: changed(before, key, change).points, ..before }),
        changed(before, key, change).point(other) == match before.point(other) {
            Some(p) => Some(
                if other == key {
                    PointV { payload: payload_after(p.payload, change), ..p }
                } else {
                    p
                },
            ),
            None => None,
        },
{
    lemma_place_of(before.points, key);
    lemma_place_of(before.points, other);
    if let Some(p) = before.point(key) {
        law_changed_then_get(before, key, PointV { payload: payload_after(p.payload, change), ..p }, other);
    }
}

/// A change of payloads comes to every point that the request speaks of, and to no other.
pub proof fn law_payloads_changed(before: CollectionV, keys: Seq<Seq<char>>, change: PayloadChangeV, key: Seq<char>)
    requires
        keys_distinct(before.points),
        keys.no_duplicates() || change is Overwrite || change is Clear,
    ensures
        keys_distinct(changed_all(before, keys, change).points),
        changed_all(before, keys, change).points.len() == before.points.len(),
        changed_all(before, keys, change) == (CollectionV { points: changed_all(before, keys, change).points, ..before }),
        changed_all(before, keys, change).point(key) == match before.point(key) {
            Some(p) => Some(
                if keys.contains(key) {
                    PointV { payload: payload_after(p.payload, change), ..p }
                } else {
                    p
                },
            ),
            None => None,
        },
    decreases keys.len(),
{
    if keys.len() > 0 {
        let rest = keys.drop_last();
        law_payloads_changed(before, rest, change, key);
        law_payload_changed(changed_all(before, rest, change), keys.last(), change, key);
        if rest.contains(key) {
            let i = choose|i: int| 0 <= i < rest.len() && rest[i] == key;
            assert(keys[i] == key);
        }
        if keys.contains(key) && !rest.contains(key) {
            let i = choose|i: int| 0 <= i < keys.len() && keys[i] == key;
            if i < rest.len() {
                assert(rest[i] == key);
            }
        }
        if keys.last() == key {
            assert(keys[keys.len() - 1] == key);
            if keys.no_duplicates() {
                assert(!rest.contains(key)) by {
                    if rest.contains(key) {
                        let i = choose|i: int| 0 <= i < rest.len() && rest[i] == key;
                        assert(keys[i] == keys[keys.len() - 1]);
                    }
                }
            }
        }
    }
}

// ---------------------------------------------------------------------------------------------
// Vectors

/// The vector that a request gives: a list of numbers, or the first member of an object if that is
/// one.
pub proof fn law_new_vector(value: JsonV)
    ensures
        value is Array ==> new_vector(value) == numbers(value->Array_0),
        value is Object && value->Object_0.len() > 0 && value->Object_0[0].1 is Array ==> new_vector(value)
            == numbers(value->Object_0[0].1->Array_0),
        value is Object && (value->Object_0.len() == 0 || !(value->Object_0[0].1 is Array)) ==> new_vector(value) is None,
        !(value is Array) && !(value is Object) ==> new_vector(value) is None,
{
}

/// Of the requests for other vectors, all that have an identifier and a vector count, in order.
pub proof fn law_all_vector_changes_read(reqs: Seq<UpdateVectorPoint>)
    ensures
        vector_changes(reqs) == reqs.filter_map(
            |req: UpdateVectorPoint|
                if key_of_json(req.id@) is Some && new_vector(req.vector@) is Some {
                    Some((key_of_json(req.id@)->0, new_vector(req.vector@)->0))
                } else {
                    None
                },
        ),
    decreases reqs.len(),
{
    reveal(Seq::filter_map);
    let f = |req: UpdateVectorPoint|
        if key_of_json(req.id@) is Some && new_vector(req.vector@) is Some {
            Some((key_of_json(req.id@)->0, new_vector(req.vector@)->0))
        } else {
            None
        };
    if reqs.len() > 0 {
        law_all_vector_changes_read(reqs.drop_last());
        let rest = reqs.drop_last().filter_map(f);
        if let Some(x) = f(reqs.last()) {
            assert(rest.push(x) =~= rest + seq![x]);
        }
    } else {
        assert(vector_changes(reqs) =~= reqs.filter_map(f));
    }
}

proof fn lemma_vectors_so_far<K: Kernels>(
    k: &K,
    states: Seq<CollectionV>,
    changes: Seq<(Seq<char>, Seq<Real>)>,
    n: int,
    key: Seq<char>,
)
    requires
        updates_through(k, states, changes),
        keys_distinct(states[0].points),
        0 <= n <= changes.len(),
    ensures
        keys_distinct(states[n].points),
        (states[n].point(key) is Some) == (states[0].point(key) is Some),
        states[n].point(key) matches Some(p) ==> p == (PointV { vector: p.vector, ..states[0].point(key)->0 }),
        (forall|j: int| 0 <= j < n ==> (#[trigger] changes[j]).0 != key) ==> states[n].point(key) == states[0].point(key),
        forall|i: int|
            0 <= i < n && (#[trigger] changes[i]).0 == key && (forall|j: int| i < j < n ==> (#[trigger] changes[j]).0 != key)
                && states[0].point(key) is Some ==> states[n].point(key)->0.vector == changes[i].1,
    decreases n,
{
    if n > 0 {
        lemma_vectors_so_far(k, states, changes, n - 1, key);
        assert(updates_next(k, states, changes, n - 1));
        let before = states[n - 1];
        let after = states[n];
        let at = changes[n - 1].0;
        lemma_place_of(before.points, at);
        if let Some(p) = before.point(at) {
            let now = PointV { vector: changes[n - 1].1, ..p };
            law_changed_then_get(before, at, now, key);
            law_vector_updated_then_get(k, before, at, changes[n - 1].1, after, key);
            assert(after.points == before.with_point(at, now).points);
        }
    }
}

/// A request for other vectors gives every stored point that it names the vector that it gives
/// last; nothing else of a point changes, and no other point.
pub proof fn law_vectors_updated<K: Kernels>(
    k: &K,
    before: CollectionV,
    changes: Seq<(Seq<char>, Seq<Real>)>,
    after: CollectionV,
    key: Seq<char>,
)
    requires
        updates_all(k, before, changes, after),
        keys_distinct(before.points),
    ensures
        (after.point(key) is Some) == (before.point(key) is Some),
        after.point(key) matches Some(p) ==> p == (PointV { vector: p.vector, ..before.point(key)->0 }),
        (forall|j: int| 0 <= j < changes.len() ==> (#[trigger] changes[j]).0 != key) ==> after.point(key) == before.point(
            key,
        ),
        forall|i: int|
            0 <= i < changes.len() && (#[trigger] changes[i]).0 == key && (forall|j: int|
                i < j < changes.len() ==> (#[trigger] changes[j]).0 != key) && before.point(key) is Some ==> after.point(
                key,
            )->0.vector == changes[i].1,
{
    let states = choose|states: Seq<CollectionV>| #[trigger]
        updates_through(k, states, changes) && states[0] == before && states.last() == after;
    lemma_vectors_so_far(k, states, changes, changes.len() as int, key);
}

/// A point with another vector is in the index with that vector, once, and no longer as it was.
pub proof fn law_updated_vector_indexed<K: Kernels>(
    k: &K,
    before: CollectionV,
    key: Seq<char>,
    vector: Seq<Real>,
    after: CollectionV,
)
    requires
        vector_updates(k, before, key, vector, after),
        before.point(key) is Some,
        before.index is Some,
    ensures
        after.index is Some,
        points_of(after.index->0) == match last_node(before.index->0, key) {
            Some(i) => points_of(before.index->0).remove(i),
            None => points_of(before.index->0),
        }.push(PointV { vector, ..before.point(key)->0 }),
{
    let nodes = before.index->0;
    let left = without_node(nodes, key);
    let now = PointV { vector, ..before.point(key)->0 };
    lemma_last_node(nodes, key);
    if let Some(i) = last_node(nodes, key) {
        assert(points_of(nodes.remove(i)) =~= points_of(nodes).remove(i));
    }
    let layer = choose|layer: nat|
        layer < MAX_LAYERS && #[trigger] inserts(k, left, now, layer, MAX_CONNECTIONS, after.index->0);
    law_insert_adds_point(k, left, now, layer, MAX_CONNECTIONS, after.index->0);
}

/// A multivector that is set is that of the point, and nothing else changes.
pub proof fn law_multivector_set(
    before: CollectionV,
    key: Seq<char>,
    multivector: Option<Seq<Seq<Real>>>,
    other: Seq<char>,
)
    requires
        keys_distinct(before.points),
    ensures
        keys_distinct(multivector_set(before, key, multivector).points),
        multivector_set(before, key, multivector).point(other) == match before.point(other) {
            Some(p) => Some(
                if other == key {
                    PointV { multivector, ..p }
                } else {
                    p
                },
            ),
            None => None,
        },
{
    lemma_place_of(before.points, key);
    lemma_place_of(before.points, other);
    if let Some(p) = before.point(key) {
        law_changed_then_get(before, key, PointV { multivector, ..p }, other);
    }
}

/// A request to delete multivectors takes them from the points that it names, and nothing else.
pub proof fn law_multivectors_deleted(before: CollectionV, keys: Seq<Seq<char>>, key: Seq<char>)
    requires
        keys_distinct(before.points),
    ensures
        keys_distinct(multivectors_dropped(before, keys).points),
        multivectors_dropped(before, keys).point(key) == match before.point(key) {
            Some(p) => Some(
                if keys.contains(key) {
                    PointV { multivector: None, ..p }
                } else {
                    p
                },
            ),
            None => None,
        },
    decreases keys.len(),
{
    if keys.len() > 0 {
        let rest = keys.drop_last();
        law_multivectors_deleted(before, rest, key);
        law_multivector_set(multivectors_dropped(before, rest), keys.last(), None, key);
        if rest.contains(key) {
            let i = choose|i: int| 0 <= i < rest.len() && rest[i] == key;
            assert(keys[i] == key);
        }
        if keys.contains(key) && !rest.contains(key) {
            let i = choose|i: int| 0 <= i < keys.len() && keys[i] == key;
            if i < rest.len() {
                assert(rest[i] == key);
            }
        }
        if keys.last() == key {
            assert(keys[keys.len() - 1] == key);
        }
    }
}

// ---------------------------------------------------------------------------------------------
// Storing

/// A vector is taken exactly if it is as long as the collection asks for, or if it asks for no
/// length; otherwise the refusal says both lengths, and nothing changes.
pub proof fn law_dimension_checked<K: Kernels>(
    k: &K,
    before: CollectionV,
    point: PointV,
    after: CollectionV,
    r: Result<(), Error>,
)
    requires
        upsert_answers(k, before, point, after, r),
    ensures
        (r is Ok) == (before.config.vector_dim == 0 || point.vector.len() == before.config.vector_dim),
        r is Ok ==> upserts(k, before, point, after),
        r is Err ==> after == before && r->Err_0 == (Error::InvalidDimension {
            expected: before.config.vector_dim,
            actual: point.vector.len() as usize,
        }),
{
}

/// Outside a batch, a point that is stored goes into an index that is built, with its vector
/// normalized, behind what is there; an index that is not built stays as it is. A point with a text
/// goes into the text index; no other text changes.
pub proof fn law_stored_point_indexed<K: Kernels>(
    k: &K,
    before: CollectionV,
    point: PointV,
    after: CollectionV,
    other: Seq<char>,
)
    requires
        upserts(k, before, point, after),
        !before.batch_mode,
    ensures
        (after.index is Some) == (before.index is Some),
        !before.built ==> after.index == before.index,
        before.built && before.index is Some ==> exists|scaled: Seq<Real>| #[trigger]
            gives_normalized(k, point.vector, scaled) && points_of(after.index->0) == points_of(before.index->0).push(
                PointV { vector: scaled, ..before.versioned(point) },
            ),
        (after.documents is Some) == (before.documents is Some),
        before.documents is Some && (point.payload is None || point.payload->0.get_text("text"@) is None)
            ==> after.documents == before.documents,
        before.documents is Some && other != point.key() ==> lookup(after.documents->0, other) == lookup(
            before.documents->0,
            other,
        ),
        after.config == before.config,
        after.operations == before.operations,
        after.built == before.built,
        !after.batch_mode,
        after.pending == before.pending,
{
    let p = before.versioned(point);
    if before.index is Some && before.built {
        let (scaled, nodes2) = choose|
            scaled: Seq<Real>,
            nodes2: Seq<HnswNodeV>,
        | #[trigger]
            gives_normalized(k, p.vector, scaled) && #[trigger] index_inserts(
                k,
                before.index->0,
                (PointV { vector: scaled, ..p }),
                nodes2,
            ) && after.index == Some(nodes2);
        let layer = choose|layer: nat|
            layer < MAX_LAYERS && #[trigger] inserts(
                k,
                before.index->0,
                (PointV { vector: scaled, ..p }),
                layer,
                MAX_CONNECTIONS,
                nodes2,
            );
        law_insert_adds_point(k, before.index->0, (PointV { vector: scaled, ..p }), layer, MAX_CONNECTIONS, nodes2);
    }
    if before.documents is Some && other != point.key() {
        if let Some(text) = indexed_text(p.payload) {
            law_put_leaves_others(before.documents->0, p.key(), text, other);
        }
    }
}

/// In a batch, a point is stored and noted, and the indexes wait.
pub proof fn law_batch_waits<K: Kernels>(k: &K, before: CollectionV, point: PointV, after: CollectionV)
    requires
        upserts(k, before, point, after),
        before.batch_mode,
    ensures
        after.index == before.index,
        after.documents == before.documents,
        after.batch_mode,
        after.pending == before.pending.push(before.versioned(point)),
{
}

/// The version of a point counts how often it was stored again; it begins at zero.
pub proof fn law_version_counts(c: CollectionV, point: PointV)
    ensures
        c.versioned(point) == (PointV { version: c.versioned(point).version, ..point }),
        c.point(point.key()) is None ==> c.versioned(point).version == 0,
        c.point(point.key()) matches Some(p) ==> c.versioned(point).version == (p.version + 1) % 0x1_0000_0000_0000_0000,
{
}

/// A batch that ends asks for the index to be built anew, from all points, exactly if there is an
/// index, there are more than ten thousand points and it is not being built already.
pub proof fn law_batch_ends(c: CollectionV)
    ensures
        !batch_ended(c).batch_mode,
        batch_ended(c).pending.len() == 0,
        batch_ended(c).points == c.points,
        batch_ended(c).index == c.index,
        batch_ended(c).documents == c.documents,
        batch_ended(c).config == c.config,
        (rebuild_answer(c) is Some) == (c.index is Some && c.points.len() > 10_000 && !c.rebuilding),
        rebuild_answer(c) matches Some(points) ==> points == c.points,
        batch_ended(c).rebuilding == (c.rebuilding || rebuild_answer(c) is Some),
        batch_started(c).batch_mode,
        batch_started(c).pending.len() == 0,
        batch_started(c).points == c.points,
{
}

// ---------------------------------------------------------------------------------------------
// Several operations

/// Every member of a list that is a point counts, in order.
pub proof fn law_all_points_read(list: Seq<JsonV>)
    ensures
        points_in(list) == list.filter_map(|v: JsonV| point_in(v)),
    decreases list.len(),
{
    reveal(Seq::filter_map);
    if list.len() > 0 {
        law_all_points_read(list.drop_last());
        let rest = list.drop_last().filter_map(|v: JsonV| point_in(v));
        if let Some(p) = point_in(list.last()) {
            assert(rest.push(p) =~= rest + seq![p]);
        }
    } else {
        assert(points_in(list) =~= list.filter_map(|v: JsonV| point_in(v)));
    }
}

/// Every text in a list counts, in order.
pub proof fn law_all_texts_read(list: Seq<JsonV>)
    ensures
        texts_in(list) == list.filter_map(|v: JsonV| v.text()),
    decreases list.len(),
{
    reveal(Seq::filter_map);
    if list.len() > 0 {
        law_all_texts_read(list.drop_last());
        let rest = list.drop_last().filter_map(|v: JsonV| v.text());
        if let Some(t) = list.last().text() {
            assert(rest.push(t) =~= rest + seq![t]);
        }
    } else {
        assert(texts_in(list) =~= list.filter_map(|v: JsonV| v.text()));
    }
}

/// A collection takes a vector.
pub open spec fn fits(c: CollectionV, vector: Seq<Real>) -> bool {
    c.config.vector_dim == 0 || vector.len() == c.config.vector_dim
}

proof fn lemma_tried_so_far<K: Kernels>(k: &K, states: Seq<CollectionV>, points: Seq<PointV>, n: int, key: Seq<char>)
    requires
        tries_through(k, states, points),
        keys_distinct(states[0].points),
        0 <= n <= points.len(),
    ensures
        keys_distinct(states[n].points),
        states[n].config == states[0].config,
        (forall|j: int| 0 <= j < n ==> (#[trigger] points[j]).key() != key || !fits(states[0], points[j].vector))
            ==> states[n].point(key) == states[0].point(key),
        forall|i: int|
            0 <= i < n && (#[trigger] points[i]).key() == key && fits(states[0], points[i].vector) && (forall|j: int|
                i < j < n ==> (#[trigger] points[j]).key() != key || !fits(states[0], points[j].vector))
                ==> states[n].point(key) is Some && states[n].point(key)->0 == (PointV {
                version: states[n].point(key)->0.version,
                ..points[i]
            }),
    decreases n,
{
    if n > 0 {
        lemma_tried_so_far(k, states, points, n - 1, key);
        assert(tries_next(k, states, points, n - 1));
        let before = states[n - 1];
        let point = points[n - 1];
        if before.takes(point.vector) {
            law_upsert_then_get(k, before, point, states[n], key);
        }
    }
}

/// Points that are stored one by one are stored as they are given, the last one under a key, but
/// for those whose vectors do not fit, which change nothing.
pub proof fn law_tried_points_found<K: Kernels>(
    k: &K,
    before: CollectionV,
    points: Seq<PointV>,
    after: CollectionV,
    key: Seq<char>,
)
    requires
        tries_all(k, before, points, after),
        keys_distinct(before.points),
    ensures
        (forall|j: int| 0 <= j < points.len() ==> (#[trigger] points[j]).key() != key || !fits(before, points[j].vector))
            ==> after.point(key) == before.point(key),
        forall|i: int|
            0 <= i < points.len() && (#[trigger] points[i]).key() == key && fits(before, points[i].vector) && (forall|
                j: int,
            |
                i < j < points.len() ==> (#[trigger] points[j]).key() != key || !fits(before, points[j].vector))
                ==> after.point(key) is Some && after.point(key)->0 == (PointV {
                version: after.point(key)->0.version,
                ..points[i]
            }),
{
    let states = choose|states: Seq<CollectionV>| #[trigger]
        tries_through(k, states, points) && states[0] == before && states.last() == after;
    lemma_tried_so_far(k, states, points, points.len() as int, key);
}

/// A list that an operation has under two names.
pub open spec fn list_under(operation: JsonV, name: Seq<char>, inner: Seq<char>) -> Option<Seq<JsonV>> {
    if operation.get(name) is Some {
        operation.get(name)->0.get_array(inner)
    } else {
        None
    }
}

/// What an operation of a batch does: the first of storing, deleting and changing payloads for
/// which it has what is needed; an operation that has nothing of that does nothing, and says so.
pub proof fn law_operation_kinds<K: Kernels>(k: &K, before: CollectionV, operation: JsonV, after: CollectionV, r: bool)
    requires
        operates(k, before, operation, after, r),
    ensures
        list_under(operation, "upsert"@, "points"@) matches Some(list) ==> r && tries_all(
            k,
            before,
            points_in(list),
            after,
        ),
        list_under(operation, "upsert"@, "points"@) is None ==> {
            &&& list_under(operation, "delete"@, "points"@) matches Some(ids) ==> r && after == deleted_all(
                before,
                keys_in(ids),
            )
            &&& list_under(operation, "delete"@, "points"@) is None ==> match payload_operation(operation) {
                Some(change) => r && after == changed_all(before, keys_in(change.1), change.0),
                None => !r && after == before,
            }
        },
{
    assert(array_under(operation, "upsert"@, "points"@) == list_under(operation, "upsert"@, "points"@));
    assert(array_under(operation, "delete"@, "points"@) == list_under(operation, "delete"@, "points"@));
}

/// What a payload operation does, and to which points: of merging, overwriting, deleting keys and
/// clearing, the first for which it has what is needed.
pub proof fn law_payload_operation_kinds(operation: JsonV)
    ensures
        ({
            let set = operation.get("set_payload"@);
            let over = operation.get("overwrite_payload"@);
            let merges = set is Some && set->0.get("payload"@) is Some && set->0.get_array("points"@) is Some;
            let overwrites = over is Some && over->0.get("payload"@) is Some && over->0.get_array("points"@) is Some;
            let strips = list_under(operation, "delete_payload"@, "keys"@) is Some && list_under(
                operation,
                "delete_payload"@,
                "points"@,
            ) is Some;
            payload_operation(operation) == if merges {
                Some((PayloadChangeV::Merge(set->0.get("payload"@)->0), set->0.get_array("points"@)->0))
            } else if overwrites {
                Some((PayloadChangeV::Overwrite(over->0.get("payload"@)->0), over->0.get_array("points"@)->0))
            } else if strips {
                Some(
                    (
                        PayloadChangeV::DeleteKeys(texts_in(list_under(operation, "delete_payload"@, "keys"@)->0)),
                        list_under(operation, "delete_payload"@, "points"@)->0,
                    ),
                )
            } else if list_under(operation, "clear_payload"@, "points"@) is Some {
                Some((PayloadChangeV::Clear, list_under(operation, "clear_payload"@, "points"@)->0))
            } else {
                None
            }
        }),
{
    assert forall|name: Seq<char>, inner: Seq<char>| #[trigger]
        array_under(operation, name, inner) == list_under(operation, name, inner) by {}
}

/// The operations of a batch are done one after the other, each with an answer of its own: what a
/// batch comes to is what its last operation makes of what the others came to.
pub proof fn law_batch_runs_all<K: Kernels>(
    k: &K,
    before: CollectionV,
    operations: Seq<JsonV>,
    after: CollectionV,
    r: Seq<bool>,
)
    requires
        operates_all(k, before, operations, after, r),
    ensures
        r.len() == operations.len(),
        operations.len() == 0 ==> after == before,
        operations.len() > 0 ==> exists|mid: CollectionV| #[trigger]
            operates_all(k, before, operations.drop_last(), mid, r.drop_last()) && operates(
                k,
                mid,
                operations.last(),
                after,
                r.last(),
            ),
{
    let states = choose|states: Seq<CollectionV>| #[trigger]
        operates_through(k, states, operations, r) && states[0] == before && states.last() == after;
    if operations.len() > 0 {
        let n = operations.len() - 1;
        let earlier = states.drop_last();
        let fewer = operations.drop_last();
        let answers = r.drop_last();
        assert forall|i: int| 0 <= i < fewer.len() implies #[trigger] operates_next(k, earlier, fewer, answers, i) by {
            assert(operates_next(k, states, operations, r, i));
        }
        assert(operates_through(k, earlier, fewer, answers));
        assert(earlier.last() == states[n]);
        assert(operates_all(k, before, fewer, states[n], answers));
        assert(operates_next(k, states, operations, r, n));
    }
}

/// The keys that a request for other vectors names.
pub proof fn law_changed_keys(changes: Seq<(Seq<char>, Seq<Real>)>)
    ensures
        changed_keys(changes) == changes.map_values(|c: (Seq<char>, Seq<Real>)| c.0),
{
    assert(changed_keys(changes) =~= changes.map_values(|c: (Seq<char>, Seq<Real>)| c.0));
}

/// A request to delete vectors means the multivectors if it names them, or nothing.
pub proof fn law_means_multivector(names: Seq<Seq<char>>)
    ensures
        means_multivector(names) == (names.contains("multivector"@) || names.contains(Seq::<char>::empty())),
{
    if means_multivector(names) {
        let i = choose|i: int| 0 <= i < names.len() && ((#[trigger] names[i]) == "multivector"@ || names[i].len() == 0);
        if names[i].len() == 0 {
            assert(names[i] =~= Seq::<char>::empty());
        }
    }
    if names.contains(Seq::<char>::empty()) {
        let i = choose|i: int| 0 <= i < names.len() && names[i] == Seq::<char>::empty();
        assert(names[i].len() == 0);
    }
}

/// The kind of a payload index goes by its name, in the schema or under its `type`; any other name,
/// and no schema, means keywords.
pub proof fn law_index_type_named(name: Seq<char>, schema: JsonV)
    ensures
        (index_type_named(name) == PayloadIndexType::Integer) == (name == "integer"@),
        (index_type_named(name) == PayloadIndexType::Float) == (name == "float"@),
        (index_type_named(name) == PayloadIndexType::Bool) == (name == "bool"@),
        (index_type_named(name) == PayloadIndexType::Geo) == (name == "geo"@),
        (index_type_named(name) == PayloadIndexType::Text) == (name == "text"@),
        index_type_of(Some(JsonV::Text(name))) == index_type_named(name),
        index_type_of(None) == PayloadIndexType::Keyword,
        !(schema is Text) ==> index_type_of(Some(schema)) == match schema.get_text("type"@) {
            Some(t) => index_type_named(t),
            None => PayloadIndexType::Keyword,
        },
{
    reveal_strlit("keyword");
    reveal_strlit("integer");
    reveal_strlit("float");
    reveal_strlit("bool");
    reveal_strlit("geo");
    reveal_strlit("text");
    assert("keyword"@[0] == 'k' && "integer"@[0] == 'i' && "float"@[0] == 'f' && "bool"@[0] == 'b' && "geo"@[0] == 'g'
        && "text"@[0] == 't');
}

// ---------------------------------------------------------------------------------------------
// Batches of points

proof fn lemma_others_so_far<K: Kernels>(k: &K, states: Seq<CollectionV>, points: Seq<PointV>, n: int, key: Seq<char>)
    requires
        stores_through(k, states, points),
        keys_distinct(states[0].points),
        0 <= n < states.len(),
        forall|j: int| 0 <= j < n ==> (#[trigger] points[j]).key() != key,
    ensures
        states[n].point(key) == states[0].point(key),
    decreases n,
{
    if n > 0 {
        lemma_others_so_far(k, states, points, n - 1, key);
        lemma_distinct_so_far(k, states, points, n - 1);
        assert(stores_next(k, states, points, n - 1));
        law_upsert_then_get(k, states[n - 1], points[n - 1], states[n], key);
    }
}

/// Points that are stored one after the other all go in exactly if the vectors of all fit. If one
/// does not, that ends it, with both lengths: those before it are stored, and none behind it. Points
/// under other keys stay as they are.
pub proof fn law_stored_up_to_misfit<K: Kernels>(
    k: &K,
    before: CollectionV,
    points: Seq<PointV>,
    after: CollectionV,
    r: Result<(), Error>,
    key: Seq<char>,
)
    requires
        upserts_all(k, before, points, after, r),
        keys_distinct(before.points),
    ensures
        (r is Ok) == forall|i: int| 0 <= i < points.len() ==> fits(before, (#[trigger] points[i]).vector),
        (forall|j: int| 0 <= j < points.len() ==> (#[trigger] points[j]).key() != key) ==> after.point(key) == before.point(
            key,
        ),
        r is Err ==> exists|n: int|
            {
                &&& 0 <= n < points.len()
                &&& !fits(before, (#[trigger] points[n]).vector)
                &&& forall|i: int| 0 <= i < n ==> fits(before, (#[trigger] points[i]).vector)
                &&& r->Err_0 == (Error::InvalidDimension {
                    expected: before.config.vector_dim,
                    actual: points[n].vector.len() as usize,
                })
                &&& forall|i: int|
                    0 <= i < n && (forall|j: int| i < j < n ==> (#[trigger] points[j]).key() != points[i].key())
                        ==> after.point((#[trigger] points[i]).key()) is Some && after.point(points[i].key())->0 == (
                    PointV { version: after.point(points[i].key())->0.version, ..points[i] })
            },
{
    let states = choose|states: Seq<CollectionV>| #[trigger]
        stores_through(k, states, points) && states[0] == before && states.last() == after && if states.len()
            == points.len() + 1 {
            r is Ok
        } else {
            refuses(after, points[states.len() - 1], r)
        };
    let n = states.len() - 1;
    lemma_distinct_so_far(k, states, points, n);
    if forall|j: int| 0 <= j < points.len() ==> (#[trigger] points[j]).key() != key {
        lemma_others_so_far(k, states, points, n, key);
    }
    assert forall|i: int| 0 <= i < n implies fits(before, (#[trigger] points[i]).vector) by {
        assert(stores_next(k, states, points, i));
        lemma_distinct_so_far(k, states, points, i);
    }
    if n < points.len() {
        assert(!fits(before, points[n].vector));
        assert forall|i: int|
            0 <= i < n && (forall|j: int| i < j < n ==> (#[trigger] points[j]).key() != points[i].key()) implies after.point(
            (#[trigger] points[i]).key(),
        ) is Some && after.point(points[i].key())->0 == (PointV {
            version: after.point(points[i].key())->0.version,
            ..points[i]
        }) by {
            lemma_stored_so_far(k, states, points, n, i);
        }
    }
}

/// A batch leaves points under other keys as they were.
pub proof fn law_batch_keeps_others<K: Kernels>(
    k: &K,
    before: CollectionV,
    points: Seq<PointV>,
    after: CollectionV,
    r: Result<Option<Seq<PointV>>, Error>,
    key: Seq<char>,
)
    requires
        batch_answers(k, before, points, after, r),
        keys_distinct(before.points),
        forall|j: int| 0 <= j < points.len() ==> (#[trigger] points[j]).key() != key,
    ensures
        after.point(key) == before.point(key),
        (r is Ok) == forall|i: int| 0 <= i < points.len() ==> fits(before, (#[trigger] points[i]).vector),
{
    let (mid, r0) = choose|mid: CollectionV, r0: Result<(), Error>| #[trigger]
        upserts_all(k, batch_started(before), points, mid, r0) && match r0 {
            Ok(_) => after == batch_ended(mid) && r == Ok::<Option<Seq<PointV>>, Error>(rebuild_answer(mid)),
            Err(e) => after == mid && r == Err::<Option<Seq<PointV>>, Error>(e),
        };
    law_stored_up_to_misfit(k, batch_started(before), points, mid, r0, key);
    let started = batch_started(before);
    if r is Ok {
        assert forall|i: int| 0 <= i < points.len() implies fits(before, (#[trigger] points[i]).vector) by {
            assert(fits(started, points[i].vector));
        }
    }
    if forall|i: int| 0 <= i < points.len() ==> fits(before, (#[trigger] points[i]).vector) {
        assert forall|i: int| 0 <= i < points.len() implies fits(started, (#[trigger] points[i]).vector) by {
            assert(fits(before, points[i].vector));
        }
    }
}

/// A request to store points with an identifier that is not valid is refused, and nothing changes.
/// One that goes through gets the number of the operation, which is counted; and where it brings a
/// thousand points or more, the index is ready afterwards, with all points in it if it is new.
pub proof fn law_upsert_request<K: Kernels>(
    k: &K,
    before: CollectionV,
    reqs: Seq<PointRequestV>,
    after: CollectionV,
    r: Result<(u64, Option<Seq<PointV>>), ApiErrorV>,
)
    requires
        upsert_points_answers(k, before, reqs, after, r),
        keys_distinct(before.points),
    ensures
        (exists|i: int| 0 <= i < reqs.len() && requested_id((#[trigger] reqs[i]).id) is None) ==> after == before && r == Err::<
            (u64, Option<Seq<PointV>>),
            ApiErrorV,
        >(ApiErrorV::InvalidPointId),
        r is Ok ==> r->Ok_0.0 == before.operations && after.operations == (before.operations + 1)
            % 0x1_0000_0000_0000_0000,
        r is Err ==> after.operations == before.operations,
        r is Ok && reqs.len() >= 1000 && before.index is Some ==> after.built,
        r is Ok && reqs.len() >= 1000 && before.index is Some && !before.built ==> points_of(after.index->0) == after.points,
        r is Ok && reqs.len() < 1000 ==> after.built == before.built,
{
    if exists|i: int| 0 <= i < reqs.len() && requested_id((#[trigger] reqs[i]).id) is None {
        assert(requested_points(reqs) is None);
    } else {
        let points = requested_points(reqs)->0;
        let prewarm = points.len() >= 1000;
        let (mid, r0) = choose|mid: CollectionV, r0: Result<Option<Seq<PointV>>, Error>| #[trigger]
            stores_points(k, before, points, prewarm, mid, r0) && match r0 {
                Ok(job) => after == counted(mid) && r == Ok::<(u64, Option<Seq<PointV>>), ApiErrorV>(
                    (mid.operations, job),
                ),
                Err(e) => after == mid && r == Err::<(u64, Option<Seq<PointV>>), ApiErrorV>(ApiErrorV::Core(e)),
            };
        if points.len() > 1 {
            let ended = choose|ended: CollectionV| #[trigger]
                batch_answers(k, before, points, ended, r0) && if r0 is Ok && prewarm {
                    warms(k, ended, mid)
                } else {
                    mid == ended
                };
            let (last, r1) = choose|last: CollectionV, r1: Result<(), Error>| #[trigger]
                upserts_all(k, batch_started(before), points, last, r1) && match r1 {
                    Ok(_) => ended == batch_ended(last) && r0 == Ok::<Option<Seq<PointV>>, Error>(rebuild_answer(last)),
                    Err(e) => ended == last && r0 == Err::<Option<Seq<PointV>>, Error>(e),
                };
            let states = choose|states: Seq<CollectionV>| #[trigger]
                stores_through(k, states, points) && states[0] == batch_started(before) && states.last() == last
                    && if states.len() == points.len() + 1 {
                    r1 is Ok
                } else {
                    refuses(last, points[states.len() - 1], r1)
                };
            lemma_distinct_so_far(k, states, points, states.len() - 1);
            assert(ended.operations == before.operations);
            assert(ended.built == before.built);
            if r0 is Ok && prewarm {
                law_built_index_holds_all(k, ended, mid);
                if before.index is Some {
                    law_batch_stores_all(k, before, points, ended, r0->Ok_0);
                    lemma_last_is_stored(k, before, points, ended, r0->Ok_0);
                }
            }
        }
    }
}

/// A batch of points leaves at least one point.
proof fn lemma_last_is_stored<K: Kernels>(
    k: &K,
    before: CollectionV,
    points: Seq<PointV>,
    after: CollectionV,
    job: Option<Seq<PointV>>,
)
    requires
        keys_distinct(before.points),
        batch_answers(k, before, points, after, Ok(job)),
        points.len() > 0,
    ensures
        after.points.len() > 0,
{
    law_batch_stores_all(k, before, points, after, job);
    let last = points.len() - 1;
    assert(after.point(points[last].key()) is Some);
    lemma_place_of(after.points, points[last].key());
}

} // verus!
