//! What holds of a collection from one operation to the next.

use vstd::prelude::*;
use crate::collection::{
    batch_answers, batch_ended, batch_started, deleted, multivector_set, payload_replaced,
    payload_set, payload_stripped, rebuild_answer, refuses, retained, searches, searches_scaled,
    stores_next, stores_through, upserts, upserts_all, vector_updates, BRUTE_FORCE_THRESHOLD,
    CollectionV, Error,
};
use crate::entries::{
    law_put_leaves_others, law_put_then_lookup, law_without_lookup, lemma_last_at, lookup,
};
use crate::hnsw::{index_gives, picks_points, search_width};
use crate::ieee::Real;
use crate::json::{merged, put_all, stripped, without_all, JsonV};
use crate::kernels::{gives_normalized, Kernels};
use crate::point::PointV;
use crate::scoring::{law_best_first, plainly_scores, scores_by, selected, takes_best};
use crate::store::{
    keys_distinct, law_stored_then_found, law_taken_out_then_missing, lemma_place_of,
};
use crate::walk::finds;

verus! {

// ---------------------------------------------------------------------------------------------
// Storing and deleting

/// A point that is stored is found under its key, as it was given but for its version; every
/// other key leads where it did, keys stay distinct, and the number of points grows by one if the
/// key is new.
pub proof fn law_upsert_then_get<K: Kernels>(
    k: &K,
    before: CollectionV,
    point: PointV,
    after: CollectionV,
    key: Seq<char>,
)
    requires
        keys_distinct(before.points),
        upserts(k, before, point, after),
    ensures
        keys_distinct(after.points),
        after.point(key) == if key == point.key() {
            Some(before.versioned(point))
        } else {
            before.point(key)
        },
        after.points.len() == if before.point(point.key()) is Some {
            before.points.len()
        } else {
            before.points.len() + 1
        },
{
    law_stored_then_found(before.points, before.versioned(point), key);
    lemma_place_of(before.points, point.key());
}

/// The first point under a key has version 0, and each that replaces it has the next version.
pub proof fn law_versions_count<K: Kernels>(
    k: &K,
    first: CollectionV,
    a: PointV,
    second: CollectionV,
    b: PointV,
    third: CollectionV,
)
    requires
        keys_distinct(first.points),
        first.point(a.key()) is None,
        a.key() == b.key(),
        upserts(k, first, a, second),
        upserts(k, second, b, third),
    ensures
        second.point(a.key())->0.version == 0,
        third.point(a.key())->0.version == 1,
        third.point(a.key())->0 == (PointV { version: 1, ..b }),
        third.points.len() == first.points.len() + 1,
{
    law_upsert_then_get(k, first, a, second, a.key());
    law_upsert_then_get(k, second, b, third, a.key());
}

/// A point that is deleted is not found any more; every other key leads where it did.
pub proof fn law_delete_then_missing(before: CollectionV, key: Seq<char>, other: Seq<char>)
    requires
        keys_distinct(before.points),
    ensures
        keys_distinct(deleted(before, key).points),
        deleted(before, key).point(other) == if other == key {
            None
        } else {
            before.point(other)
        },
        deleted(before, key).points.len() == if before.point(key) is Some {
            before.points.len() - 1
        } else {
            before.points.len() as int
        },
        deleted(before, key).documents matches Some(d) ==> lookup(d, key) is None,
{
    law_taken_out_then_missing(before.points, key, other);
    lemma_place_of(before.points, key);
    if let Some(d) = before.documents {
        law_without_lookup(d, key, key);
    }
}

/// A point that is stored and deleted again leaves every key leading where it did, but for its
/// own, which leads nowhere.
pub proof fn law_upsert_then_delete<K: Kernels>(
    k: &K,
    before: CollectionV,
    point: PointV,
    after: CollectionV,
    key: Seq<char>,
)
    requires
        keys_distinct(before.points),
        upserts(k, before, point, after),
    ensures
        deleted(after, point.key()).point(key) == if key == point.key() {
            None
        } else {
            before.point(key)
        },
{
    law_upsert_then_get(k, before, point, after, key);
    law_delete_then_missing(after, point.key(), key);
}

/// With a text index, the text of a point that is stored by itself is what its key leads to there.
pub proof fn law_text_indexed<K: Kernels>(k: &K, before: CollectionV, point: PointV, after: CollectionV, text: Seq<char>)
    requires
        upserts(k, before, point, after),
        !before.batch_mode,
        before.documents is Some,
        point.payload is Some,
        point.payload->0.get_text("text"@) == Some(text),
    ensures
        after.documents is Some,
        lookup(after.documents->0, point.key()) == Some(text),
{
    law_put_then_lookup(before.documents->0, point.key(), text);
}

// ---------------------------------------------------------------------------------------------
// Batches

/// Between two states of storing points nothing but the points, the indexes and what is pending
/// changes.
pub proof fn lemma_stored_so_far<K: Kernels>(k: &K, states: Seq<CollectionV>, points: Seq<PointV>, n: int, i: int)
    requires
        stores_through(k, states, points),
        keys_distinct(states[0].points),
        0 <= n < states.len(),
        0 <= i < n,
        forall|j: int| i < j < n ==> (#[trigger] points[j]).key() != points[i].key(),
    ensures
        keys_distinct(states[n].points),
        states[n].point(points[i].key()) is Some,
        states[n].point(points[i].key())->0 == (PointV {
            version: states[n].point(points[i].key())->0.version,
            ..points[i]
        }),
    decreases n,
{
    lemma_distinct_so_far(k, states, points, n - 1);
    assert(stores_next(k, states, points, n - 1));
    law_upsert_then_get(k, states[n - 1], points[n - 1], states[n], points[i].key());
    if i < n - 1 {
        assert(points[n - 1].key() != points[i].key());
        lemma_stored_so_far(k, states, points, n - 1, i);
    }
}

pub proof fn lemma_distinct_so_far<K: Kernels>(k: &K, states: Seq<CollectionV>, points: Seq<PointV>, n: int)
    requires
        stores_through(k, states, points),
        keys_distinct(states[0].points),
        0 <= n < states.len(),
    ensures
        keys_distinct(states[n].points),
        states[n].config == states[0].config,
        states[n].batch_mode == states[0].batch_mode,
        states[n].rebuilding == states[0].rebuilding,
        states[n].built == states[0].built,
        states[n].operations == states[0].operations,
        states[n].payload_indexes == states[0].payload_indexes,
        states[0].batch_mode ==> states[n].index == states[0].index && states[n].documents == states[0].documents,
    decreases n,
{
    if n > 0 {
        lemma_distinct_so_far(k, states, points, n - 1);
        assert(stores_next(k, states, points, n - 1));
        law_upsert_then_get(k, states[n - 1], points[n - 1], states[n], points[n - 1].key());
    }
}

/// After points were stored one after the other without a refusal, each is found under its key as
/// it was given, unless a later one has the same key.
pub proof fn law_all_stored<K: Kernels>(
    k: &K,
    before: CollectionV,
    points: Seq<PointV>,
    after: CollectionV,
    i: int,
)
    requires
        keys_distinct(before.points),
        upserts_all(k, before, points, after, Ok(())),
        0 <= i < points.len(),
        forall|j: int| i < j < points.len() ==> (#[trigger] points[j]).key() != points[i].key(),
    ensures
        keys_distinct(after.points),
        after.point(points[i].key()) is Some,
        after.point(points[i].key())->0 == (PointV {
            version: after.point(points[i].key())->0.version,
            ..points[i]
        }),
{
    let states = choose|states: Seq<CollectionV>| #[trigger]
        stores_through(k, states, points) && states[0] == before && states.last() == after && if states.len()
            == points.len() + 1 {
            Ok::<(), Error>(()) is Ok
        } else {
            refuses(after, points[states.len() - 1], Ok(()))
        };
    assert(states.len() == points.len() + 1);
    lemma_stored_so_far(k, states, points, points.len() as int, i);
}

/// A batch that goes through is closed at its end: nothing is pending, each of its points is
/// found under its key unless a later one has the same key, and the indexes are as they were.
pub proof fn law_batch_stores_all<K: Kernels>(
    k: &K,
    before: CollectionV,
    points: Seq<PointV>,
    after: CollectionV,
    job: Option<Seq<PointV>>,
)
    requires
        keys_distinct(before.points),
        batch_answers(k, before, points, after, Ok(job)),
    ensures
        !after.batch_mode,
        after.pending.len() == 0,
        after.index == before.index,
        after.documents == before.documents,
        after.config == before.config,
        keys_distinct(after.points),
        forall|i: int|
            0 <= i < points.len() && (forall|j: int|
                i < j < points.len() ==> (#[trigger] points[j]).key() != points[i].key()) ==> after.point(
                (#[trigger] points[i]).key(),
            ) is Some && after.point(points[i].key())->0 == (PointV {
                version: after.point(points[i].key())->0.version,
                ..points[i]
            }),
        job matches Some(from) ==> from == after.points && after.rebuilding,
{
    let (mid, r0) = choose|mid: CollectionV, r0: Result<(), Error>| #[trigger]
        upserts_all(k, batch_started(before), points, mid, r0) && match r0 {
            Ok(_) => after == batch_ended(mid) && Ok::<Option<Seq<PointV>>, Error>(job) == Ok::<
                Option<Seq<PointV>>,
                Error,
            >(rebuild_answer(mid)),
            Err(e) => after == mid && Ok::<Option<Seq<PointV>>, Error>(job) == Err::<Option<Seq<PointV>>, Error>(e),
        };
    assert(r0 is Ok && r0->Ok_0 == ());
    assert(r0 == Ok::<(), Error>(()));
    let states = choose|states: Seq<CollectionV>| #[trigger]
        stores_through(k, states, points) && states[0] == batch_started(before) && states.last() == mid && if states.len()
            == points.len() + 1 {
            r0 is Ok
        } else {
            refuses(mid, points[states.len() - 1], r0)
        };
    assert(states.len() == points.len() + 1);
    lemma_distinct_so_far(k, states, points, points.len() as int);
    assert forall|i: int|
        0 <= i < points.len() && (forall|j: int|
            i < j < points.len() ==> (#[trigger] points[j]).key() != points[i].key()) implies after.point(
        (#[trigger] points[i]).key(),
    ) is Some && after.point(points[i].key())->0 == (PointV {
        version: after.point(points[i].key())->0.version,
        ..points[i]
    }) by {
        law_all_stored(k, batch_started(before), points, mid, i);
    }
}

// ---------------------------------------------------------------------------------------------
// Changing points

/// A point that is changed but keeps its key is found as it was changed; every other key leads
/// where it did.
pub proof fn law_changed_then_get(before: CollectionV, key: Seq<char>, point: PointV, other: Seq<char>)
    requires
        keys_distinct(before.points),
        point.key() == key,
        before.point(key) is Some,
    ensures
        keys_distinct(before.with_point(key, point).points),
        before.with_point(key, point).points.len() == before.points.len(),
        before.with_point(key, point).point(other) == if other == key {
            Some(point)
        } else {
            before.point(other)
        },
{
    lemma_place_of(before.points, key);
    law_stored_then_found(before.points, point, other);
}

/// Setting a payload keeps the point and its other parts. A name that the new payload has leads to
/// its value there, every other name where it did.
pub proof fn law_payload_set_then_get(before: CollectionV, key: Seq<char>, payload: JsonV, name: Seq<char>)
    requires
        keys_distinct(before.points),
        before.point(key) is Some,
        before.point(key)->0.payload is Some,
        before.point(key)->0.payload->0 is Object,
        payload is Object,
    ensures
        payload_set(before, key, payload).point(key) is Some,
        payload_set(before, key, payload).point(key)->0 == (PointV {
            payload: payload_set(before, key, payload).point(key)->0.payload,
            ..before.point(key)->0
        }),
        payload_set(before, key, payload).point(key)->0.payload is Some,
        payload_set(before, key, payload).point(key)->0.payload->0.get(name) == match payload.get(name) {
            Some(v) => Some(v),
            None => before.point(key)->0.payload->0.get(name),
        },
{
    let p = before.point(key)->0;
    lemma_place_of(before.points, key);
    let changed = PointV { payload: Some(merged(p.payload->0, payload)), ..p };
    law_changed_then_get(before, key, changed, key);
    law_merged_lookup(p.payload->0->Object_0, payload->Object_0, name);
}

/// In an object with the members of another put in, a name that the other has leads to its value,
/// any other name where it did.
pub proof fn law_merged_lookup(a: Seq<(Seq<char>, JsonV)>, b: Seq<(Seq<char>, JsonV)>, name: Seq<char>)
    ensures
        lookup(put_all(a, b), name) == match lookup(b, name) {
            Some(v) => Some(v),
            None => lookup(a, name),
        },
    decreases b.len(),
{
    if b.len() > 0 {
        law_merged_lookup(a, b.drop_last(), name);
        let rest = put_all(a, b.drop_last());
        if b.last().0 == name {
            law_put_then_lookup(rest, name, b.last().1);
        } else {
            law_put_leaves_others(rest, b.last().0, b.last().1, name);
            lemma_last_at(b.drop_last(), name);
        }
    }
}

/// In an object without the members of some names, those names lead nowhere and every other where
/// it did.
pub proof fn law_stripped_lookup(a: Seq<(Seq<char>, JsonV)>, keys: Seq<Seq<char>>, name: Seq<char>)
    ensures
        lookup(without_all(a, keys), name) == if keys.contains(name) {
            None
        } else {
            lookup(a, name)
        },
    decreases keys.len(),
{
    if keys.len() > 0 {
        law_stripped_lookup(a, keys.drop_last(), name);
        law_without_lookup(without_all(a, keys.drop_last()), keys.last(), name);
        if keys.contains(name) && !keys.drop_last().contains(name) {
            let i = choose|i: int| 0 <= i < keys.len() && keys[i] == name;
            if i < keys.len() - 1 {
                assert(keys.drop_last()[i] == name);
            }
        }
        if keys.drop_last().contains(name) {
            let i = choose|i: int| 0 <= i < keys.drop_last().len() && keys.drop_last()[i] == name;
            assert(keys[i] == name);
        }
        if keys.last() == name {
            assert(keys[keys.len() - 1] == name);
        }
    }
}

/// After names were deleted from a payload they lead nowhere there; every other name leads where
/// it did, and nothing else of the point changes.
pub proof fn law_payload_keys_deleted(before: CollectionV, key: Seq<char>, keys: Seq<Seq<char>>, name: Seq<char>)
    requires
        keys_distinct(before.points),
        before.point(key) is Some,
        before.point(key)->0.payload is Some,
        before.point(key)->0.payload->0 is Object,
    ensures
        payload_stripped(before, key, keys).point(key) is Some,
        payload_stripped(before, key, keys).point(key)->0 == (PointV {
            payload: payload_stripped(before, key, keys).point(key)->0.payload,
            ..before.point(key)->0
        }),
        payload_stripped(before, key, keys).point(key)->0.payload is Some,
        payload_stripped(before, key, keys).point(key)->0.payload->0.get(name) == if keys.contains(name) {
            None
        } else {
            before.point(key)->0.payload->0.get(name)
        },
{
    let p = before.point(key)->0;
    lemma_place_of(before.points, key);
    let changed = PointV { payload: Some(stripped(p.payload->0, keys)), ..p };
    law_changed_then_get(before, key, changed, key);
    law_stripped_lookup(p.payload->0->Object_0, keys, name);
}

/// A payload that is overwritten, or cleared, is what the point then has; nothing else of it and
/// no other point changes.
pub proof fn law_payload_replaced_then_get(
    before: CollectionV,
    key: Seq<char>,
    payload: Option<JsonV>,
    other: Seq<char>,
)
    requires
        keys_distinct(before.points),
        before.point(key) is Some,
    ensures
        payload_replaced(before, key, payload).point(other) == if other == key {
            Some(PointV { payload, ..before.point(key)->0 })
        } else {
            before.point(other)
        },
{
    let p = before.point(key)->0;
    lemma_place_of(before.points, key);
    law_changed_then_get(before, key, (PointV { payload, ..p }), other);
}

/// A vector that is replaced is what the point then has; nothing else of it and no other point
/// changes.
pub proof fn law_vector_updated_then_get<K: Kernels>(
    k: &K,
    before: CollectionV,
    key: Seq<char>,
    vector: Seq<Real>,
    after: CollectionV,
    other: Seq<char>,
)
    requires
        keys_distinct(before.points),
        before.point(key) is Some,
        vector_updates(k, before, key, vector, after),
    ensures
        after.point(other) == if other == key {
            Some(PointV { vector, ..before.point(key)->0 })
        } else {
            before.point(other)
        },
{
    let p = before.point(key)->0;
    lemma_place_of(before.points, key);
    law_changed_then_get(before, key, (PointV { vector, ..p }), other);
}

/// What is done to a key that no point has changes nothing.
pub proof fn law_missing_key_changes_nothing<K: Kernels>(
    k: &K,
    before: CollectionV,
    key: Seq<char>,
    payload: JsonV,
    keys: Seq<Seq<char>>,
    vector: Seq<Real>,
    after: CollectionV,
)
    requires
        before.point(key) is None,
        vector_updates(k, before, key, vector, after),
    ensures
        payload_set(before, key, payload) == before,
        payload_replaced(before, key, Some(payload)) == before,
        payload_replaced(before, key, None) == before,
        payload_stripped(before, key, keys) == before,
        multivector_set(before, key, None) == before,
        after == before,
        deleted(before, key).points == before.points,
{
    lemma_place_of(before.points, key);
}

// ---------------------------------------------------------------------------------------------
// Searching

proof fn lemma_selected(points: Seq<PointV>, pass: spec_fn(PointV) -> bool)
    ensures
        selected(points, pass).len() <= points.len(),
        forall|i: int| 0 <= i < selected(points, pass).len() ==> pass(#[trigger] selected(points, pass)[i]),
        forall|p: PointV| #[trigger] selected(points, pass).contains(p) == (points.contains(p) && pass(p)),
    decreases points.len(),
{
    if points.len() > 0 {
        let rest = points.drop_last();
        lemma_selected(rest, pass);
        let all = selected(points, pass);
        assert forall|p: PointV| #[trigger] all.contains(p) == (points.contains(p) && pass(p)) by {
            if all.contains(p) {
                let i = choose|i: int| 0 <= i < all.len() && all[i] == p;
                if i < selected(rest, pass).len() {
                    assert(selected(rest, pass)[i] == p);
                    assert(selected(rest, pass).contains(p));
                    let j = choose|j: int| 0 <= j < rest.len() && rest[j] == p;
                    assert(points[j] == p);
                } else {
                    assert(points[points.len() - 1] == p);
                }
            }
            if points.contains(p) && pass(p) {
                let j = choose|j: int| 0 <= j < points.len() && points[j] == p;
                if j < rest.len() {
                    assert(rest[j] == p);
                    assert(selected(rest, pass).contains(p));
                    let i = choose|i: int| 0 <= i < selected(rest, pass).len() && selected(rest, pass)[i] == p;
                    assert(all[i] == p);
                } else {
                    assert(all[all.len() - 1] == p);
                }
            }
        }
    }
}

proof fn lemma_retained(found: Seq<(PointV, Real)>, pass: spec_fn(PointV) -> bool)
    ensures
        retained(found, pass).len() <= found.len(),
        forall|i: int| 0 <= i < retained(found, pass).len() ==> pass((#[trigger] retained(found, pass)[i]).0),
    decreases found.len(),
{
    if found.len() > 0 {
        lemma_retained(found.drop_last(), pass);
    }
}

proof fn lemma_best_of_selected(
    points: Seq<PointV>,
    pass: spec_fn(PointV) -> bool,
    scores: Seq<Real>,
    limit: nat,
    r: Seq<(PointV, Real)>,
)
    requires
        takes_best(selected(points, pass), scores, limit, r),
    ensures
        r.len() <= limit,
        r.len() == if limit <= selected(points, pass).len() {
            limit
        } else {
            selected(points, pass).len()
        },
        forall|i: int| 0 <= i < r.len() ==> pass((#[trigger] r[i]).0) && points.contains(r[i].0),
        forall|i: int, j: int|
            0 <= i < j < r.len() ==> (#[trigger] r[i]).1.best_rank() <= (#[trigger] r[j]).1.best_rank(),
{
    law_best_first(selected(points, pass), scores, limit, r);
    lemma_selected(points, pass);
    assert forall|i: int| 0 <= i < r.len() implies pass((#[trigger] r[i]).0) && points.contains(r[i].0) by {
        assert(selected(points, pass).contains(r[i].0));
    }
}

/// A search returns at most as many points as were asked for, and none that the filter does not
/// let through.
pub proof fn law_search_respects_filter<K: Kernels>(
    k: &K,
    before: CollectionV,
    query: Seq<Real>,
    limit: usize,
    pass: spec_fn(PointV) -> bool,
    after: CollectionV,
    r: Seq<(PointV, Real)>,
)
    requires
        searches(k, before, query, limit, pass, after, r),
    ensures
        r.len() <= limit,
        forall|i: int| 0 <= i < r.len() ==> pass((#[trigger] r[i]).0),
{
    let scaled = choose|scaled: Seq<Real>| #[trigger]
        gives_normalized(k, query, scaled) && searches_scaled(k, before, query, scaled, limit, pass, after, r);
    if before.points.len() < BRUTE_FORCE_THRESHOLD {
        let scores = choose|scores: Seq<Real>| #[trigger]
            scores_by(k, before.config.distance, scaled, selected(before.points, pass), scores) && takes_best(
                selected(before.points, pass),
                scores,
                limit as nat,
                r,
            );
        lemma_best_of_selected(before.points, pass, scores, limit as nat, r);
    } else if before.index is Some {
        let found = choose|found: Seq<(PointV, Real)>| #[trigger]
            index_gives(k, after.index->0, scaled, limit, None, found) && r == retained(found, pass);
        lemma_retained(found, pass);
        if after.index->0.len() > 0 {
            let inner = choose|inner: Seq<(usize, Real)>| #[trigger]
                finds(k, after.index->0, scaled, 0, search_width(limit, None), 0, inner)
                    && picks_points(k, after.index->0, inner, limit, found);
            assert(found.len() <= limit);
        }
    } else {
        let scores = choose|scores: Seq<Real>| #[trigger]
            plainly_scores(k, before.config.distance, query, selected(before.points, pass), scores) && takes_best(
                selected(before.points, pass),
                scores,
                limit as nat,
                r,
            );
        lemma_best_of_selected(before.points, pass, scores, limit as nat, r);
    }
}

/// Searching does not change what is stored, whatever it does to the index.
pub proof fn law_search_keeps_points<K: Kernels>(
    k: &K,
    before: CollectionV,
    query: Seq<Real>,
    limit: usize,
    pass: spec_fn(PointV) -> bool,
    after: CollectionV,
    r: Seq<(PointV, Real)>,
)
    requires
        searches(k, before, query, limit, pass, after, r),
    ensures
        after == (CollectionV { index: after.index, built: after.built, ..before }),
        (after.index is Some) == (before.index is Some),
{
    let scaled = choose|scaled: Seq<Real>| #[trigger]
        gives_normalized(k, query, scaled) && searches_scaled(k, before, query, scaled, limit, pass, after, r);
}

/// A search of a small collection, or of one without an index, is exact: it returns stored points
/// that the filter lets through, as many of them as there are up to the limit, the best scores
/// first; and it changes nothing.
pub proof fn law_small_search_exact<K: Kernels>(
    k: &K,
    before: CollectionV,
    query: Seq<Real>,
    limit: usize,
    pass: spec_fn(PointV) -> bool,
    after: CollectionV,
    r: Seq<(PointV, Real)>,
)
    requires
        searches(k, before, query, limit, pass, after, r),
        before.points.len() < BRUTE_FORCE_THRESHOLD || before.index is None,
    ensures
        after == before,
        r.len() == if limit <= selected(before.points, pass).len() {
            limit as nat
        } else {
            selected(before.points, pass).len()
        },
        forall|i: int| 0 <= i < r.len() ==> pass((#[trigger] r[i]).0) && before.points.contains(r[i].0),
        forall|i: int, j: int|
            0 <= i < j < r.len() ==> (#[trigger] r[i]).1.best_rank() <= (#[trigger] r[j]).1.best_rank(),
{
    let scaled = choose|scaled: Seq<Real>| #[trigger]
        gives_normalized(k, query, scaled) && searches_scaled(k, before, query, scaled, limit, pass, after, r);
    if before.points.len() < BRUTE_FORCE_THRESHOLD {
        let scores = choose|scores: Seq<Real>| #[trigger]
            scores_by(k, before.config.distance, scaled, selected(before.points, pass), scores) && takes_best(
                selected(before.points, pass),
                scores,
                limit as nat,
                r,
            );
        lemma_best_of_selected(before.points, pass, scores, limit as nat, r);
    } else {
        let scores = choose|scores: Seq<Real>| #[trigger]
            plainly_scores(k, before.config.distance, query, selected(before.points, pass), scores) && takes_best(
                selected(before.points, pass),
                scores,
                limit as nat,
                r,
            );
        lemma_best_of_selected(before.points, pass, scores, limit as nat, r);
    }
}

} // verus!
