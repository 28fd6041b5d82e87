//! Requests that change a collection.

use vstd::prelude::*;
use crate::api::{json_key, key_of_json, ApiError, ApiErrorV};
use crate::collection::{
    batch_answer_of, batch_answers, batch_then_warms, deleted, multivector_set, next_version,
    payload_replaced, payload_set, payload_stripped, rebuild_from, upsert_answers, upserts,
    vector_updates, warms, Collection, CollectionV, Error,
};
use crate::collection_laws::{law_batch_stores_all, law_delete_then_missing, law_upsert_then_get};
use crate::config::PayloadIndexType;
use crate::entries::{put, without};
use crate::ieee::Real;
use crate::input::{
    law_requested_id_found, numbers, parse_numbers, parse_point_from_json, point_in, read_points,
    requested_id, requested_point, requested_points, requests_of, PointRequest, PointRequestV,
};
use crate::json::{fields, items, lemma_array, lemma_object, texts, Json, JsonV};
use crate::kernels::Kernels;
use crate::lists::lemma_prefix_grows;
use crate::point::{payload_of, Point, PointV, Vector};
use crate::store::{keys_distinct, lemma_place_of, place_of, points_view};
use crate::text::same_text;

verus! {

/// From this many points on, the index is got ready when they are stored.
pub const PREWARM_THRESHOLD: usize = 1000;

/// The answer to a request that changed a collection: the number of the operation, and the
/// points to rebuild the index from, if that is due.
pub struct Acknowledged {
    pub operation_id: u64,
    pub rebuild: Option<Vec<Point>>,
}

/// The collection after an operation number was given out.
pub open spec fn counted(c: CollectionV) -> CollectionV {
    CollectionV { operations: next_version(c.operations), ..c }
}

/// What storing the points of a request comes to: several as a batch, one by itself.
pub open spec fn stores_points<K: Kernels>(
    k: &K,
    before: CollectionV,
    points: Seq<PointV>,
    prewarm: bool,
    after: CollectionV,
    r: Result<Option<Seq<PointV>>, Error>,
) -> bool {
    if points.len() > 1 {
        batch_then_warms(k, before, points, prewarm, after, r)
    } else if points.len() == 1 {
        upsert_answers(
            k,
            before,
            points[0],
            after,
            match r {
                Ok(_) => Ok(()),
                Err(e) => Err(e),
            },
        ) && (r is Ok ==> r == Ok::<Option<Seq<PointV>>, Error>(None))
    } else {
        after == before && r == Ok::<Option<Seq<PointV>>, Error>(None)
    }
}

/// The view of an acknowledgement, or of a refusal.
pub open spec fn acknowledgement(r: Result<Acknowledged, ApiError>) -> Result<(u64, Option<Seq<PointV>>), ApiErrorV> {
    match r {
        Ok(a) => Ok((a.operation_id, rebuild_from(a.rebuild))),
        Err(e) => Err(e@),
    }
}

/// What a request to store points comes to. With an identifier that is not valid nothing is
/// stored.
pub open spec fn upsert_points_answers<K: Kernels>(
    k: &K,
    before: CollectionV,
    reqs: Seq<PointRequestV>,
    after: CollectionV,
    r: Result<(u64, Option<Seq<PointV>>), ApiErrorV>,
) -> bool {
    match requested_points(reqs) {
        None => after == before && r == Err::<(u64, Option<Seq<PointV>>), ApiErrorV>(ApiErrorV::InvalidPointId),
        Some(points) => stores_and_answers(k, before, points, points.len() >= PREWARM_THRESHOLD, after, r),
    }
}

/// What storing points and giving the operation a number comes to.
pub open spec fn stores_and_answers<K: Kernels>(
    k: &K,
    before: CollectionV,
    points: Seq<PointV>,
    prewarm: bool,
    after: CollectionV,
    r: Result<(u64, Option<Seq<PointV>>), ApiErrorV>,
) -> bool {
    exists|mid: CollectionV, r0: Result<Option<Seq<PointV>>, Error>| #[trigger]
        stores_points(k, before, points, prewarm, mid, r0) && match r0 {
            Ok(job) => after == counted(mid) && r == Ok::<(u64, Option<Seq<PointV>>), ApiErrorV>(
                (mid.operations, job),
            ),
            Err(e) => after == mid && r == Err::<(u64, Option<Seq<PointV>>), ApiErrorV>(ApiErrorV::Core(e)),
        }
}

/// Stores the points of a request.
pub fn store_points<K: Kernels>(collection: &mut Collection, k: &K, points: Vec<Point>, prewarm: bool) -> (r: Result<
    Option<Vec<Point>>,
    Error,
>)
    requires
        old(collection).wf(),
    ensures
        final(collection).wf(),
        stores_points(k, old(collection)@, points_view(points@), prewarm, final(collection)@, batch_answer_of(r)),
{
    if points.len() > 1 {
        return collection.batch_upsert_with_prewarm(k, points, prewarm);
    }
    let ghost all = points_view(points@);
    let mut rest = points;
    match rest.pop() {
        Some(p) => {
            assert(p@ == all[0]);
            match collection.upsert(k, p) {
                Ok(_) => Ok(None),
                Err(e) => Err(e),
            }
        },
        None => Ok(None),
    }
}

/// Points that a request stored are found by the identifiers they were given, as they were given
/// but for their versions, unless a later one in the request has the same identifier.
pub proof fn law_upserted_points_found<K: Kernels>(
    k: &K,
    before: CollectionV,
    reqs: Seq<PointRequestV>,
    after: CollectionV,
    r: Result<(u64, Option<Seq<PointV>>), ApiErrorV>,
    i: int,
)
    requires
        keys_distinct(before.points),
        upsert_points_answers(k, before, reqs, after, r),
        r is Ok,
        0 <= i < reqs.len(),
        forall|j: int| i < j < reqs.len() ==> key_of_json((#[trigger] reqs[j]).id) != key_of_json(reqs[i].id),
    ensures
        key_of_json(reqs[i].id) is Some,
        requested_id(reqs[i].id) is Some,
        after.point(key_of_json(reqs[i].id)->0) is Some,
        after.point(key_of_json(reqs[i].id)->0)->0 == (PointV {
            version: after.point(key_of_json(reqs[i].id)->0)->0.version,
            ..requested_point(requested_id(reqs[i].id)->0, reqs[i].vector, reqs[i].payload)
        }),
{
    let points = requested_points(reqs)->0;
    let prewarm = points.len() >= PREWARM_THRESHOLD;
    let (mid, r0) = choose|mid: CollectionV, r0: Result<Option<Seq<PointV>>, Error>| #[trigger]
        stores_points(k, before, points, prewarm, mid, r0) && match r0 {
            Ok(job) => after == counted(mid) && r == Ok::<(u64, Option<Seq<PointV>>), ApiErrorV>(
                (mid.operations, job),
            ),
            Err(e) => after == mid && r == Err::<(u64, Option<Seq<PointV>>), ApiErrorV>(ApiErrorV::Core(e)),
        };
    law_requested_id_found(reqs[i].id, reqs[i].vector, reqs[i].payload);
    assert(points[i] == requested_point(requested_id(reqs[i].id)->0, reqs[i].vector, reqs[i].payload));
    assert forall|j: int| i < j < points.len() implies (#[trigger] points[j]).key() != points[i].key() by {
        assert(requested_id(reqs[j].id) is Some);
        law_requested_id_found(reqs[j].id, reqs[j].vector, reqs[j].payload);
        assert(points[j] == requested_point(requested_id(reqs[j].id)->0, reqs[j].vector, reqs[j].payload));
        assert(key_of_json(reqs[j].id) != key_of_json(reqs[i].id));
    }
    if points.len() > 1 {
        let ended = choose|ended: CollectionV| #[trigger]
            batch_answers(k, before, points, ended, r0) && if r0 is Ok && prewarm {
                warms(k, ended, mid)
            } else {
                mid == ended
            };
        law_batch_stores_all(k, before, points, ended, r0->Ok_0);
        assert(mid.points == ended.points);
    } else {
        law_upsert_then_get(k, before, points[0], mid, points[0].key());
    }
}

/// Store the points of a request
pub fn upsert_points<K: Kernels>(collection: &mut Collection, k: &K, reqs: &Vec<PointRequest>) -> (r: Result<
    Acknowledged,
    ApiError,
>)
    requires
        old(collection).wf(),
    ensures
        final(collection).wf(),
        upsert_points_answers(k, old(collection)@, requests_of(reqs@), final(collection)@, acknowledgement(r)),
{
    let points = match read_points(reqs) {
        Some(p) => p,
        None => {
            return Err(ApiError::InvalidPointId);
        },
    };
    let prewarm = points.len() >= PREWARM_THRESHOLD;
    let ghost before = collection@;
    let ghost all = points_view(points@);
    let outcome = store_points(collection, k, points, prewarm);
    assert(stores_points(k, before, all, prewarm, collection@, batch_answer_of(outcome)));
    match outcome {
        Ok(rebuild) => {
            let operation_id: u64 = collection.next_operation_id();
            let r = Ok(Acknowledged { operation_id, rebuild });
            assert(stores_and_answers(k, before, all, prewarm, collection@, acknowledgement(r)));
            r
        },
        Err(e) => {
            let r: Result<Acknowledged, ApiError> = Err(ApiError::Core(e));
            assert(stores_and_answers(k, before, all, prewarm, collection@, acknowledgement(r)));
            r
        },
    }
}

// ---------------------------------------------------------------------------------------------
// Deleting

/// The collection after several keys were deleted, one after the other.
pub open spec fn deleted_all(c: CollectionV, keys: Seq<Seq<char>>) -> CollectionV
    decreases keys.len(),
{
    if keys.len() == 0 {
        c
    } else {
        deleted(deleted_all(c, keys.drop_last()), keys.last())
    }
}

/// The keys that identifiers in JSON lead to; what is no identifier is passed over.
pub open spec fn keys_in(ids: Seq<JsonV>) -> Seq<Seq<char>>
    decreases ids.len(),
{
    if ids.len() == 0 {
        Seq::empty()
    } else {
        match key_of_json(ids.last()) {
            Some(key) => keys_in(ids.drop_last()).push(key),
            None => keys_in(ids.drop_last()),
        }
    }
}

/// The keys of points.
pub open spec fn keys_of(points: Seq<PointV>) -> Seq<Seq<char>> {
    Seq::new(points.len(), |i: int| points[i].key())
}

/// Whether a field of a payload has a value.
pub open spec fn field_is(payload: Option<JsonV>, field: Seq<char>, value: JsonV) -> bool {
    match payload {
        Some(p) => match p.get(field) {
            Some(v) => v.same(value),
            None => false,
        },
        None => false,
    }
}

/// The keys of the points in whose payload a field has a value.
pub open spec fn keys_where(points: Seq<PointV>, field: Seq<char>, value: JsonV) -> Seq<Seq<char>>
    decreases points.len(),
{
    if points.len() == 0 {
        Seq::empty()
    } else if field_is(points.last().payload, field, value) {
        keys_where(points.drop_last(), field, value).push(points.last().key())
    } else {
        keys_where(points.drop_last(), field, value)
    }
}

/// Reads the identifiers in a list.
pub fn read_keys(ids: &Vec<Json>) -> (r: Vec<String>)
    ensures
        texts(r@) == keys_in(items(ids@)),
{
    let mut r: Vec<String> = Vec::new();
    let ghost all = items(ids@);
    let mut i: usize = 0;
    assert(texts(r@) =~= keys_in(all.take(0)));
    while i < ids.len()
        invariant
            i <= ids@.len(),
            all == items(ids@),
            texts(r@) == keys_in(all.take(i as int)),
        decreases ids@.len() - i,
    {
        proof {
            lemma_prefix_grows(all, i as int);
        }
        if let Some(key) = json_key(&ids[i]) {
            let ghost r0 = r@;
            let ghost key_v = key@;
            r.push(key);
            assert(texts(r@) =~= texts(r0).push(key_v));
        }
        i += 1;
    }
    assert(all.take(i as int) =~= all);
    r
}

fn read_keys_where(points: &Vec<Point>, field: &str, value: &Json) -> (r: Vec<String>)
    ensures
        texts(r@) == keys_where(points_view(points@), field@, value@),
{
    let mut r: Vec<String> = Vec::new();
    let ghost all = points_view(points@);
    let mut i: usize = 0;
    assert(texts(r@) =~= keys_where(all.take(0), field@, value@));
    while i < points.len()
        invariant
            i <= points@.len(),
            all == points_view(points@),
            texts(r@) == keys_where(all.take(i as int), field@, value@),
        decreases points@.len() - i,
    {
        proof {
            lemma_prefix_grows(all, i as int);
        }
        let hit = match &points[i].payload {
            Some(p) => match p.get(field) {
                Some(v) => v.same(value),
                None => false,
            },
            None => false,
        };
        assert(hit == field_is(all[i as int].payload, field@, value@));
        if hit {
            let ghost r0 = r@;
            let key = points[i].id.key();
            let ghost key_v = key@;
            r.push(key);
            assert(texts(r@) =~= texts(r0).push(key_v));
        }
        i += 1;
    }
    assert(all.take(i as int) =~= all);
    r
}

/// Points that are deleted, one after the other, are not found any more; every other key leads
/// where it did.
pub proof fn law_all_deleted(before: CollectionV, keys: Seq<Seq<char>>, key: Seq<char>)
    requires
        keys_distinct(before.points),
    ensures
        keys_distinct(deleted_all(before, keys).points),
        deleted_all(before, keys).point(key) == if keys.contains(key) {
            None
        } else {
            before.point(key)
        },
    decreases keys.len(),
{
    if keys.len() > 0 {
        let rest = keys.drop_last();
        law_all_deleted(before, rest, key);
        law_delete_then_missing(deleted_all(before, rest), keys.last(), key);
        if keys.contains(key) && !rest.contains(key) {
            let i = choose|i: int| 0 <= i < keys.len() && keys[i] == key;
            if i < rest.len() {
                assert(rest[i] == key);
            }
        }
        if rest.contains(key) {
            let i = choose|i: int| 0 <= i < rest.len() && rest[i] == key;
            assert(keys[i] == key);
        }
        if keys.last() == key {
            assert(keys[keys.len() - 1] == key);
        }
    }
}

fn delete_all(collection: &mut Collection, keys: &Vec<String>)
    requires
        old(collection).wf(),
    ensures
        final(collection).wf(),
        final(collection)@ == deleted_all(old(collection)@, texts(keys@)),
{
    let ghost all = texts(keys@);
    let mut i: usize = 0;
    assert(all.take(0) =~= Seq::<Seq<char>>::empty());
    while i < keys.len()
        invariant
            collection.wf(),
            i <= keys@.len(),
            all == texts(keys@),
            collection@ == deleted_all(old(collection)@, all.take(i as int)),
        decreases keys@.len() - i,
    {
        proof {
            lemma_prefix_grows(all, i as int);
        }
        let _ = collection.delete(keys[i].as_str());
        i += 1;
    }
    assert(all.take(i as int) =~= all);
}

/// A condition of a request to delete points: the field `key` has the value `value`.
pub struct FilterMust {
    pub key: String,
    pub value: Json,
}

/// A request to delete points: those that meet the first of the conditions, and those listed.
pub struct DeletePointsRequest {
    pub must: Option<Vec<FilterMust>>,
    pub points: Option<Vec<Json>>,
}

/// The keys that the first condition of a request selects.
pub open spec fn selected_by(must: Option<Vec<FilterMust>>, points: Seq<PointV>) -> Seq<Seq<char>> {
    match must {
        Some(list) => if list@.len() > 0 {
            keys_where(points, list@[0].key@, list@[0].value@)
        } else {
            Seq::empty()
        },
        None => Seq::empty(),
    }
}

/// The keys that a request lists.
pub open spec fn listed(points: Option<Vec<Json>>) -> Seq<Seq<char>> {
    match points {
        Some(ids) => keys_in(items(ids@)),
        None => Seq::empty(),
    }
}

/// Delete points by filter and by identifier
pub fn delete_points_by_filter(collection: &mut Collection, req: &DeletePointsRequest) -> (r: u64)
    requires
        old(collection).wf(),
    ensures
        final(collection).wf(),
        final(collection)@ == counted(
            deleted_all(
                deleted_all(old(collection)@, selected_by(req.must, old(collection)@.points)),
                listed(req.points),
            ),
        ),
        r == old(collection)@.operations,
{
    let ghost before = collection@;
    if let Some(list) = &req.must {
        if list.len() > 0 {
            let all = collection.get_all_points();
            let keys = read_keys_where(&all, list[0].key.as_str(), &list[0].value);
            delete_all(collection, &keys);
        }
    }
    assert(collection@ == deleted_all(before, selected_by(req.must, before.points)));
    if let Some(ids) = &req.points {
        let keys = read_keys(ids);
        delete_all(collection, &keys);
    }
    proof {
        lemma_deleted_all_counts(before, selected_by(req.must, before.points));
        lemma_deleted_all_counts(
            deleted_all(before, selected_by(req.must, before.points)),
            listed(req.points),
        );
    }
    collection.next_operation_id()
}

pub proof fn lemma_deleted_all_counts(c: CollectionV, keys: Seq<Seq<char>>)
    ensures
        deleted_all(c, keys).operations == c.operations,
    decreases keys.len(),
{
    if keys.len() > 0 {
        lemma_deleted_all_counts(c, keys.drop_last());
    }
}

/// Delete one point; `None` if there is none under the key
pub fn delete_point(collection: &mut Collection, id: &str) -> (r: Option<u64>)
    requires
        old(collection).wf(),
    ensures
        final(collection).wf(),
        if old(collection)@.point(id@) is Some {
            final(collection)@ == counted(deleted(old(collection)@, id@)) && r == Some(old(collection)@.operations)
        } else {
            final(collection)@ == deleted(old(collection)@, id@) && r is None
        },
{
    match collection.delete(id) {
        Ok(true) => Some(collection.next_operation_id()),
        _ => None,
    }
}

// ---------------------------------------------------------------------------------------------
// Payloads

/// What is done to the payload of a point.
pub enum PayloadChange {
    Merge(Json),
    Overwrite(Json),
    DeleteKeys(Vec<String>),
    Clear,
}

#[verifier::ext_equal]
pub enum PayloadChangeV {
    Merge(JsonV),
    Overwrite(JsonV),
    DeleteKeys(Seq<Seq<char>>),
    Clear,
}

impl View for PayloadChange {
    type V = PayloadChangeV;

    open spec fn view(&self) -> PayloadChangeV {
        match *self {
            PayloadChange::Merge(j) => PayloadChangeV::Merge(j@),
            PayloadChange::Overwrite(j) => PayloadChangeV::Overwrite(j@),
            PayloadChange::DeleteKeys(keys) => PayloadChangeV::DeleteKeys(texts(keys@)),
            PayloadChange::Clear => PayloadChangeV::Clear,
        }
    }
}

/// The collection after the payload under a key was changed.
pub open spec fn changed(c: CollectionV, key: Seq<char>, change: PayloadChangeV) -> CollectionV {
    match change {
        PayloadChangeV::Merge(payload) => payload_set(c, key, payload),
        PayloadChangeV::Overwrite(payload) => payload_replaced(c, key, Some(payload)),
        PayloadChangeV::DeleteKeys(keys) => payload_stripped(c, key, keys),
        PayloadChangeV::Clear => payload_replaced(c, key, None),
    }
}

/// The collection after the payloads under several keys were changed, one after the other.
pub open spec fn changed_all(c: CollectionV, keys: Seq<Seq<char>>, change: PayloadChangeV) -> CollectionV
    decreases keys.len(),
{
    if keys.len() == 0 {
        c
    } else {
        changed(changed_all(c, keys.drop_last(), change), keys.last(), change)
    }
}

/// How many of the keys lead to a point.
pub open spec fn present(points: Seq<PointV>, keys: Seq<Seq<char>>) -> nat
    decreases keys.len(),
{
    if keys.len() == 0 {
        0
    } else {
        present(points, keys.drop_last()) + if place_of(points, keys.last()) is Some {
            1nat
        } else {
            0nat
        }
    }
}

/// Where keys lead depends on the keys of the points alone.
proof fn lemma_place_same(a: Seq<PointV>, b: Seq<PointV>, key: Seq<char>)
    requires
        a.len() == b.len(),
        forall|i: int| 0 <= i < a.len() ==> (#[trigger] a[i]).key() == b[i].key(),
    ensures
        place_of(a, key) == place_of(b, key),
    decreases a.len(),
{
    if a.len() > 0 {
        lemma_place_same(a.drop_last(), b.drop_last(), key);
    }
}

proof fn lemma_changed_keys(c: CollectionV, key: Seq<char>, change: PayloadChangeV, other: Seq<char>)
    ensures
        place_of(changed(c, key, change).points, other) == place_of(c.points, other),
{
    lemma_place_of(c.points, key);
    lemma_place_same(changed(c, key, change).points, c.points, other);
}

proof fn lemma_changed_all_keys(c: CollectionV, keys: Seq<Seq<char>>, change: PayloadChangeV, other: Seq<char>)
    ensures
        place_of(changed_all(c, keys, change).points, other) == place_of(c.points, other),
    decreases keys.len(),
{
    if keys.len() > 0 {
        lemma_changed_all_keys(c, keys.drop_last(), change, other);
        lemma_changed_keys(changed_all(c, keys.drop_last(), change), keys.last(), change, other);
    }
}

/// Changes the payload under a key.
fn change_payload(collection: &mut Collection, key: &str, change: &PayloadChange) -> (r: bool)
    requires
        old(collection).wf(),
    ensures
        final(collection).wf(),
        final(collection)@ == changed(old(collection)@, key@, change@),
        r == (place_of(old(collection)@.points, key@) is Some),
{
    let done = match change {
        PayloadChange::Merge(payload) => collection.set_payload(key, payload.clone()),
        PayloadChange::Overwrite(payload) => collection.overwrite_payload(key, payload.clone()),
        PayloadChange::DeleteKeys(keys) => collection.delete_payload_keys(key, keys.as_slice()),
        PayloadChange::Clear => collection.clear_payload(key),
    };
    match done {
        Ok(b) => b,
        Err(_) => false,
    }
}

/// Changes the payloads under several keys; says how many of them lead to a point.
fn change_payloads(collection: &mut Collection, keys: &Vec<String>, change: &PayloadChange) -> (r: usize)
    requires
        old(collection).wf(),
    ensures
        final(collection).wf(),
        final(collection)@ == changed_all(old(collection)@, texts(keys@), change@),
        r == present(old(collection)@.points, texts(keys@)),
{
    let ghost all = texts(keys@);
    let ghost before = collection@;
    let mut count: usize = 0;
    let mut i: usize = 0;
    assert(all.take(0) =~= Seq::<Seq<char>>::empty());
    while i < keys.len()
        invariant
            collection.wf(),
            i <= keys@.len(),
            all == texts(keys@),
            before == old(collection)@,
            collection@ == changed_all(before, all.take(i as int), change@),
            count == present(before.points, all.take(i as int)),
            count <= i,
        decreases keys@.len() - i,
    {
        proof {
            lemma_prefix_grows(all, i as int);
            lemma_changed_all_keys(before, all.take(i as int), change@, all[i as int]);
        }
        if change_payload(collection, keys[i].as_str(), change) {
            count += 1;
        }
        i += 1;
    }
    assert(all.take(i as int) =~= all);
    count
}

/// The keys that a request speaks of: those listed, or without a list those of all points.
pub open spec fn addressed(ids: Option<Vec<Json>>, points: Seq<PointV>) -> Seq<Seq<char>> {
    match ids {
        Some(list) => keys_in(items(list@)),
        None => keys_of(points),
    }
}

fn read_addressed(ids: &Option<Vec<Json>>, collection: &Collection) -> (r: Vec<String>)
    requires
        collection.wf(),
    ensures
        texts(r@) == addressed(*ids, collection@.points),
{
    match ids {
        Some(list) => read_keys(list),
        None => {
            let all = collection.get_all_points();
            let mut r: Vec<String> = Vec::new();
            let mut i: usize = 0;
            while i < all.len()
                invariant
                    i <= all@.len(),
                    r@.len() == i,
                    forall|j: int| 0 <= j < i ==> (#[trigger] r@[j])@ == all@[j]@.key(),
                decreases all@.len() - i,
            {
                r.push(all[i].id.key());
                i += 1;
            }
            assert(texts(r@) =~= keys_of(points_view(all@)));
            r
        },
    }
}

/// Changes the payloads that a request speaks of; says how many points that were.
pub fn update_payloads(collection: &mut Collection, ids: &Option<Vec<Json>>, change: &PayloadChange) -> (r: usize)
    requires
        old(collection).wf(),
    ensures
        final(collection).wf(),
        final(collection)@ == changed_all(old(collection)@, addressed(*ids, old(collection)@.points), change@),
        r == present(old(collection)@.points, addressed(*ids, old(collection)@.points)),
{
    let keys = read_addressed(ids, collection);
    change_payloads(collection, &keys, change)
}

/// Set payload on points
pub fn set_payload(collection: &mut Collection, payload: Json, ids: &Option<Vec<Json>>) -> (r: usize)
    requires
        old(collection).wf(),
    ensures
        final(collection).wf(),
        final(collection)@ == changed_all(
            old(collection)@,
            addressed(*ids, old(collection)@.points),
            PayloadChangeV::Merge(payload@),
        ),
        r == present(old(collection)@.points, addressed(*ids, old(collection)@.points)),
{
    update_payloads(collection, ids, &PayloadChange::Merge(payload))
}

/// Overwrite payload on points (replace entire payload)
pub fn overwrite_payload(collection: &mut Collection, payload: Json, ids: &Option<Vec<Json>>) -> (r: usize)
    requires
        old(collection).wf(),
    ensures
        final(collection).wf(),
        final(collection)@ == changed_all(
            old(collection)@,
            addressed(*ids, old(collection)@.points),
            PayloadChangeV::Overwrite(payload@),
        ),
        r == present(old(collection)@.points, addressed(*ids, old(collection)@.points)),
{
    update_payloads(collection, ids, &PayloadChange::Overwrite(payload))
}

/// Delete payload fields from points
pub fn delete_payload(collection: &mut Collection, keys: Vec<String>, ids: &Option<Vec<Json>>) -> (r: usize)
    requires
        old(collection).wf(),
    ensures
        final(collection).wf(),
        final(collection)@ == changed_all(
            old(collection)@,
            addressed(*ids, old(collection)@.points),
            PayloadChangeV::DeleteKeys(texts(keys@)),
        ),
        r == present(old(collection)@.points, addressed(*ids, old(collection)@.points)),
{
    update_payloads(collection, ids, &PayloadChange::DeleteKeys(keys))
}

/// Clear all payload from points
pub fn clear_payload(collection: &mut Collection, ids: &Option<Vec<Json>>) -> (r: usize)
    requires
        old(collection).wf(),
    ensures
        final(collection).wf(),
        final(collection)@ == changed_all(
            old(collection)@,
            addressed(*ids, old(collection)@.points),
            PayloadChangeV::Clear,
        ),
        r == present(old(collection)@.points, addressed(*ids, old(collection)@.points)),
{
    update_payloads(collection, ids, &PayloadChange::Clear)
}

// ---------------------------------------------------------------------------------------------
// Vectors

/// A request to give a point another vector.
pub struct UpdateVectorPoint {
    pub id: Json,
    pub vector: Json,
}

/// The vector that a value stands for: a list of numbers, or the first member of an object, if
/// that is one.
pub open spec fn new_vector(value: JsonV) -> Option<Seq<Real>> {
    match value {
        JsonV::Array(list) => numbers(list),
        JsonV::Object(members) => if members.len() > 0 {
            match members[0].1 {
                JsonV::Array(list) => numbers(list),
                _ => None,
            }
        } else {
            None
        },
        _ => None,
    }
}

/// The keys and vectors of the requests that have both; the others are passed over.
pub open spec fn vector_changes(reqs: Seq<UpdateVectorPoint>) -> Seq<(Seq<char>, Seq<Real>)>
    decreases reqs.len(),
{
    if reqs.len() == 0 {
        Seq::empty()
    } else {
        match (key_of_json(reqs.last().id@), new_vector(reqs.last().vector@)) {
            (Some(key), Some(vector)) => vector_changes(reqs.drop_last()).push((key, vector)),
            _ => vector_changes(reqs.drop_last()),
        }
    }
}

/// The step from the `i`-th to the next state makes the `i`-th change.
pub open spec fn updates_next<K: Kernels>(
    k: &K,
    states: Seq<CollectionV>,
    changes: Seq<(Seq<char>, Seq<Real>)>,
    i: int,
) -> bool {
    vector_updates(k, states[i], changes[i].0, changes[i].1, states[i + 1])
}

/// What giving several points other vectors, one after the other, comes to.
pub open spec fn updates_all<K: Kernels>(
    k: &K,
    before: CollectionV,
    changes: Seq<(Seq<char>, Seq<Real>)>,
    after: CollectionV,
) -> bool {
    exists|states: Seq<CollectionV>| #[trigger]
        updates_through(k, states, changes) && states[0] == before && states.last() == after
}

pub open spec fn updates_through<K: Kernels>(
    k: &K,
    states: Seq<CollectionV>,
    changes: Seq<(Seq<char>, Seq<Real>)>,
) -> bool {
    &&& states.len() == changes.len() + 1
    &&& forall|i: int| 0 <= i < changes.len() ==> #[trigger] updates_next(k, states, changes, i)
}

/// The keys of changes.
pub open spec fn changed_keys(changes: Seq<(Seq<char>, Seq<Real>)>) -> Seq<Seq<char>> {
    Seq::new(changes.len(), |i: int| changes[i].0)
}

fn read_new_vector(value: &Json) -> (r: Option<Vec<Real>>)
    ensures
        new_vector(value@) == match r {
            Some(v) => Some(v@),
            None => None,
        },
{
    match value {
        Json::Array(list) => {
            proof {
                lemma_array(*list);
            }
            parse_numbers(list)
        },
        Json::Object(members) => {
            proof {
                lemma_object(*members);
            }
            if members.len() > 0 {
                assert(fields(members@)[0].1 == members@[0].1@);
                match members[0].1.as_array() {
                    Some(list) => parse_numbers(list),
                    None => None,
                }
            } else {
                None
            }
        },
        _ => None,
    }
}

proof fn lemma_vector_keys<K: Kernels>(
    k: &K,
    before: CollectionV,
    key: Seq<char>,
    vector: Seq<Real>,
    after: CollectionV,
    other: Seq<char>,
)
    requires
        vector_updates(k, before, key, vector, after),
    ensures
        place_of(after.points, other) == place_of(before.points, other),
{
    lemma_place_of(before.points, key);
    lemma_place_same(after.points, before.points, other);
}

/// Update vectors on existing points; says how many were there
pub fn update_vectors<K: Kernels>(collection: &mut Collection, k: &K, reqs: &Vec<UpdateVectorPoint>) -> (r: usize)
    requires
        old(collection).wf(),
    ensures
        final(collection).wf(),
        updates_all(k, old(collection)@, vector_changes(reqs@), final(collection)@),
        r == present(old(collection)@.points, changed_keys(vector_changes(reqs@))),
{
    let ghost before = collection@;
    let ghost mut states: Seq<CollectionV> = seq![before];
    let mut count: usize = 0;
    let mut i: usize = 0;
    assert(reqs@.take(0) =~= Seq::<UpdateVectorPoint>::empty());
    assert(changed_keys(vector_changes(reqs@.take(0))) =~= Seq::<Seq<char>>::empty());
    while i < reqs.len()
        invariant
            collection.wf(),
            i <= reqs@.len(),
            before == old(collection)@,
            updates_through(k, states, vector_changes(reqs@.take(i as int))),
            states[0] == before,
            states.last() == collection@,
            forall|key: Seq<char>| #[trigger] place_of(collection@.points, key) == place_of(before.points, key),
            count == present(before.points, changed_keys(vector_changes(reqs@.take(i as int)))),
            count <= i,
        decreases reqs@.len() - i,
    {
        proof {
            lemma_prefix_grows(reqs@, i as int);
        }
        let ghost changes0 = vector_changes(reqs@.take(i as int));
        let ghost changes = vector_changes(reqs@.take(i + 1));
        let key = json_key(&reqs[i].id);
        let vector = read_new_vector(&reqs[i].vector);
        match (key, vector) {
            (Some(key), Some(vector)) => {
                let ghost states0 = states;
                let ghost here = collection@;
                let ghost vector_v = vector@;
                let done = collection.update_vector(k, key.as_str(), Vector::new(vector));
                if let Ok(true) = done {
                    count += 1;
                }
                proof {
                    assert(changes == changes0.push((key@, vector_v)));
                    states = states.push(collection@);
                    assert forall|j: int| 0 <= j < changes.len() implies #[trigger] updates_next(
                        k,
                        states,
                        changes,
                        j,
                    ) by {
                        if j < changes0.len() {
                            assert(updates_next(k, states0, changes0, j));
                        }
                    }
                    assert forall|other: Seq<char>| #[trigger] place_of(collection@.points, other) == place_of(
                        before.points,
                        other,
                    ) by {
                        lemma_vector_keys(k, here, key@, vector_v, collection@, other);
                        assert(place_of(here.points, other) == place_of(before.points, other));
                    }
                    assert(changed_keys(changes).drop_last() =~= changed_keys(changes0));
                    assert(place_of(here.points, key@) == place_of(before.points, key@));
                }
            },
            _ => {
                assert(changes == changes0);
            },
        }
        i += 1;
    }
    assert(reqs@.take(i as int) =~= reqs@);
    count
}

/// The collection after several points lost their multivectors.
pub open spec fn multivectors_dropped(c: CollectionV, keys: Seq<Seq<char>>) -> CollectionV
    decreases keys.len(),
{
    if keys.len() == 0 {
        c
    } else {
        multivector_set(multivectors_dropped(c, keys.drop_last()), keys.last(), None)
    }
}

/// Whether the names of a request mean the multivector: one is `multivector` or empty.
pub open spec fn means_multivector(names: Seq<Seq<char>>) -> bool {
    exists|i: int| 0 <= i < names.len() && ((#[trigger] names[i]) == "multivector"@ || names[i].len() == 0)
}

fn asks_for_multivector(names: &Vec<String>) -> (r: bool)
    ensures
        r == means_multivector(texts(names@)),
{
    let ghost all = texts(names@);
    proof {
        reveal_strlit("");
        assert(""@ =~= Seq::<char>::empty());
    }
    let mut i: usize = 0;
    while i < names.len()
        invariant
            i <= names@.len(),
            all == texts(names@),
            ""@ == Seq::<char>::empty(),
            forall|j: int| 0 <= j < i ==> !((#[trigger] all[j]) == "multivector"@ || all[j].len() == 0),
        decreases names@.len() - i,
    {
        let name = names[i].as_str();
        assert(all[i as int] == name@);
        if same_text(name, "multivector") || same_text(name, "") {
            return true;
        }
        assert(all[i as int].len() == 0 ==> all[i as int] =~= Seq::<char>::empty());
        i += 1;
    }
    false
}

proof fn lemma_dropped_keys(c: CollectionV, keys: Seq<Seq<char>>, other: Seq<char>)
    ensures
        place_of(multivectors_dropped(c, keys).points, other) == place_of(c.points, other),
    decreases keys.len(),
{
    if keys.len() > 0 {
        let mid = multivectors_dropped(c, keys.drop_last());
        lemma_dropped_keys(c, keys.drop_last(), other);
        lemma_place_of(mid.points, keys.last());
        lemma_place_same(multivector_set(mid, keys.last(), None).points, mid.points, other);
    }
}

/// Delete multivectors from points; says how many points that were
pub fn delete_vectors(collection: &mut Collection, ids: &Option<Vec<Json>>, names: &Vec<String>) -> (r: usize)
    requires
        old(collection).wf(),
    ensures
        final(collection).wf(),
        if means_multivector(texts(names@)) {
            final(collection)@ == multivectors_dropped(old(collection)@, listed(*ids)) && r == present(
                old(collection)@.points,
                listed(*ids),
            )
        } else {
            final(collection)@ == old(collection)@ && r == 0
        },
{
    if !asks_for_multivector(names) {
        return 0;
    }
    let keys: Vec<String> = match ids {
        Some(list) => read_keys(list),
        None => Vec::new(),
    };
    let ghost all = texts(keys@);
    assert(all =~= listed(*ids));
    let ghost before = collection@;
    let mut count: usize = 0;
    let mut i: usize = 0;
    assert(all.take(0) =~= Seq::<Seq<char>>::empty());
    while i < keys.len()
        invariant
            collection.wf(),
            i <= keys@.len(),
            all == texts(keys@),
            before == old(collection)@,
            collection@ == multivectors_dropped(before, all.take(i as int)),
            count == present(before.points, all.take(i as int)),
            count <= i,
        decreases keys@.len() - i,
    {
        proof {
            lemma_prefix_grows(all, i as int);
            lemma_dropped_keys(before, all.take(i as int), all[i as int]);
        }
        if let Ok(true) = collection.update_multivector(keys[i].as_str(), None) {
            count += 1;
        }
        i += 1;
    }
    assert(all.take(i as int) =~= all);
    count
}

// ---------------------------------------------------------------------------------------------
// Several operations in one request

/// The array under a name in the member of an operation.
pub open spec fn array_under(operation: JsonV, name: Seq<char>, inner: Seq<char>) -> Option<Seq<JsonV>> {
    match operation.get(name) {
        Some(v) => v.get_array(inner),
        None => None,
    }
}

/// The points that the members of a list stand for; what is no point is passed over.
pub open spec fn points_in(list: Seq<JsonV>) -> Seq<PointV>
    decreases list.len(),
{
    if list.len() == 0 {
        Seq::empty()
    } else {
        match point_in(list.last()) {
            Some(p) => points_in(list.drop_last()).push(p),
            None => points_in(list.drop_last()),
        }
    }
}

/// The texts among the members of a list.
pub open spec fn texts_in(list: Seq<JsonV>) -> Seq<Seq<char>>
    decreases list.len(),
{
    if list.len() == 0 {
        Seq::empty()
    } else {
        match list.last() {
            JsonV::Text(t) => texts_in(list.drop_last()).push(t),
            _ => texts_in(list.drop_last()),
        }
    }
}

/// The step from the `i`-th to the next state stores the `i`-th point if its vector is taken.
pub open spec fn tries_next<K: Kernels>(k: &K, states: Seq<CollectionV>, points: Seq<PointV>, i: int) -> bool {
    if states[i].takes(points[i].vector) {
        upserts(k, states[i], points[i], states[i + 1])
    } else {
        states[i + 1] == states[i]
    }
}

pub open spec fn tries_through<K: Kernels>(k: &K, states: Seq<CollectionV>, points: Seq<PointV>) -> bool {
    &&& states.len() == points.len() + 1
    &&& forall|i: int| 0 <= i < points.len() ==> #[trigger] tries_next(k, states, points, i)
}

/// What storing those points whose vectors are taken comes to.
pub open spec fn tries_all<K: Kernels>(k: &K, before: CollectionV, points: Seq<PointV>, after: CollectionV) -> bool {
    exists|states: Seq<CollectionV>| #[trigger]
        tries_through(k, states, points) && states[0] == before && states.last() == after
}

/// The change of payloads that an operation asks for, and the identifiers it is for. Of several
/// the first counts, in the order: set, overwrite, delete, clear.
pub open spec fn payload_operation(operation: JsonV) -> Option<(PayloadChangeV, Seq<JsonV>)> {
    match (operation.get("set_payload"@), array_under(operation, "set_payload"@, "points"@)) {
        (Some(v), Some(ids)) if v.get("payload"@) is Some => Some(
            (PayloadChangeV::Merge(v.get("payload"@)->0), ids),
        ),
        _ => match (operation.get("overwrite_payload"@), array_under(operation, "overwrite_payload"@, "points"@)) {
            (Some(v), Some(ids)) if v.get("payload"@) is Some => Some(
                (PayloadChangeV::Overwrite(v.get("payload"@)->0), ids),
            ),
            _ => match (
                array_under(operation, "delete_payload"@, "keys"@),
                array_under(operation, "delete_payload"@, "points"@),
            ) {
                (Some(keys), Some(ids)) => Some((PayloadChangeV::DeleteKeys(texts_in(keys)), ids)),
                _ => match array_under(operation, "clear_payload"@, "points"@) {
                    Some(ids) => Some((PayloadChangeV::Clear, ids)),
                    None => None,
                },
            },
        },
    }
}

/// What one operation of a batch comes to. The first of its members that is complete counts:
/// `upsert`, `delete`, and the changes of payloads; without one nothing is done.
pub open spec fn operates<K: Kernels>(
    k: &K,
    before: CollectionV,
    operation: JsonV,
    after: CollectionV,
    r: bool,
) -> bool {
    match array_under(operation, "upsert"@, "points"@) {
        Some(list) => tries_all(k, before, points_in(list), after) && r,
        None => match array_under(operation, "delete"@, "points"@) {
            Some(ids) => after == deleted_all(before, keys_in(ids)) && r,
            None => match payload_operation(operation) {
                Some(change) => after == changed_all(before, keys_in(change.1), change.0) && r,
                None => after == before && !r,
            },
        },
    }
}

fn read_array_under<'a>(operation: &'a Json, name: &str, inner: &str) -> (r: Option<&'a Vec<Json>>)
    ensures
        array_under(operation@, name@, inner@) == match r {
            Some(v) => Some(items(v@)),
            None => None,
        },
{
    match operation.get(name) {
        Some(v) => v.get_array(inner),
        None => None,
    }
}

fn read_texts(list: &Vec<Json>) -> (r: Vec<String>)
    ensures
        texts(r@) == texts_in(items(list@)),
{
    let mut r: Vec<String> = Vec::new();
    let ghost all = items(list@);
    let mut i: usize = 0;
    assert(texts(r@) =~= texts_in(all.take(0)));
    while i < list.len()
        invariant
            i <= list@.len(),
            all == items(list@),
            texts(r@) == texts_in(all.take(i as int)),
        decreases list@.len() - i,
    {
        proof {
            lemma_prefix_grows(all, i as int);
        }
        if let Some(t) = list[i].as_text() {
            let ghost r0 = r@;
            r.push(t.clone());
            assert(texts(r@) =~= texts(r0).push(t@));
        }
        i += 1;
    }
    assert(all.take(i as int) =~= all);
    r
}

/// Stores the points in a list whose vectors are taken.
fn try_points<K: Kernels>(collection: &mut Collection, k: &K, list: &Vec<Json>)
    requires
        old(collection).wf(),
    ensures
        final(collection).wf(),
        tries_all(k, old(collection)@, points_in(items(list@)), final(collection)@),
{
    let ghost all = items(list@);
    let ghost mut states: Seq<CollectionV> = seq![collection@];
    let mut i: usize = 0;
    assert(all.take(0) =~= Seq::<JsonV>::empty());
    while i < list.len()
        invariant
            collection.wf(),
            i <= list@.len(),
            all == items(list@),
            tries_through(k, states, points_in(all.take(i as int))),
            states[0] == old(collection)@,
            states.last() == collection@,
        decreases list@.len() - i,
    {
        proof {
            lemma_prefix_grows(all, i as int);
        }
        let ghost points0 = points_in(all.take(i as int));
        let ghost points = points_in(all.take(i + 1));
        if let Some(p) = parse_point_from_json(&list[i]) {
            let ghost p_v = p@;
            let ghost states0 = states;
            let _ = collection.upsert(k, p);
            proof {
                states = states.push(collection@);
                assert(points == points0.push(p_v));
                assert forall|j: int| 0 <= j < points.len() implies #[trigger] tries_next(k, states, points, j) by {
                    if j < points0.len() {
                        assert(tries_next(k, states0, points0, j));
                    }
                }
            }
        }
        i += 1;
    }
    assert(all.take(i as int) =~= all);
}

/// Reads which change of payloads an operation asks for.
fn read_payload_operation<'a>(operation: &'a Json) -> (r: Option<(PayloadChange, &'a Vec<Json>)>)
    ensures
        payload_operation(operation@) == match r {
            Some(c) => Some((c.0@, items(c.1@))),
            None => None,
        },
{
    if let Some(v) = operation.get("set_payload") {
        if let Some(payload) = v.get("payload") {
            if let Some(ids) = v.get_array("points") {
                return Some((PayloadChange::Merge(payload.clone()), ids));
            }
        }
    }
    if let Some(v) = operation.get("overwrite_payload") {
        if let Some(payload) = v.get("payload") {
            if let Some(ids) = v.get_array("points") {
                return Some((PayloadChange::Overwrite(payload.clone()), ids));
            }
        }
    }
    if let Some(keys) = read_array_under(operation, "delete_payload", "keys") {
        if let Some(ids) = read_array_under(operation, "delete_payload", "points") {
            return Some((PayloadChange::DeleteKeys(read_texts(keys)), ids));
        }
    }
    if let Some(ids) = read_array_under(operation, "clear_payload", "points") {
        return Some((PayloadChange::Clear, ids));
    }
    None
}

/// Process a single batch operation
pub fn process_batch_operation<K: Kernels>(collection: &mut Collection, k: &K, operation: &Json) -> (r: bool)
    requires
        old(collection).wf(),
    ensures
        final(collection).wf(),
        operates(k, old(collection)@, operation@, final(collection)@, r),
{
    if let Some(points) = read_array_under(operation, "upsert", "points") {
        try_points(collection, k, points);
        return true;
    }
    if let Some(ids) = read_array_under(operation, "delete", "points") {
        let keys = read_keys(ids);
        delete_all(collection, &keys);
        return true;
    }
    match read_payload_operation(operation) {
        Some(change) => {
            let keys = read_keys(change.1);
            change_payloads(collection, &keys, &change.0);
            true
        },
        None => false,
    }
}

/// The step from the `i`-th to the next state is the `i`-th operation.
pub open spec fn operates_next<K: Kernels>(
    k: &K,
    states: Seq<CollectionV>,
    operations: Seq<JsonV>,
    r: Seq<bool>,
    i: int,
) -> bool {
    operates(k, states[i], operations[i], states[i + 1], r[i])
}

pub open spec fn operates_through<K: Kernels>(
    k: &K,
    states: Seq<CollectionV>,
    operations: Seq<JsonV>,
    r: Seq<bool>,
) -> bool {
    &&& states.len() == operations.len() + 1
    &&& r.len() == operations.len()
    &&& forall|i: int| 0 <= i < operations.len() ==> #[trigger] operates_next(k, states, operations, r, i)
}

/// What several operations, one after the other, come to; each is acknowledged or not.
pub open spec fn operates_all<K: Kernels>(
    k: &K,
    before: CollectionV,
    operations: Seq<JsonV>,
    after: CollectionV,
    r: Seq<bool>,
) -> bool {
    exists|states: Seq<CollectionV>| #[trigger]
        operates_through(k, states, operations, r) && states[0] == before && states.last() == after
}

/// Batch update operations
pub fn batch_update<K: Kernels>(collection: &mut Collection, k: &K, operations: &Vec<Json>) -> (r: Vec<bool>)
    requires
        old(collection).wf(),
    ensures
        final(collection).wf(),
        operates_all(k, old(collection)@, items(operations@), final(collection)@, r@),
{
    let ghost all = items(operations@);
    let ghost mut states: Seq<CollectionV> = seq![collection@];
    let mut r: Vec<bool> = Vec::new();
    let mut i: usize = 0;
    while i < operations.len()
        invariant
            collection.wf(),
            i <= operations@.len(),
            all == items(operations@),
            r@.len() == i,
            states.len() == i + 1,
            states[0] == old(collection)@,
            states.last() == collection@,
            forall|j: int| 0 <= j < i ==> #[trigger] operates_next(k, states, all, r@, j),
        decreases operations@.len() - i,
    {
        let ghost states0 = states;
        let ghost r0 = r@;
        let done = process_batch_operation(collection, k, &operations[i]);
        r.push(done);
        proof {
            states = states.push(collection@);
            assert forall|j: int| 0 <= j < i + 1 implies #[trigger] operates_next(k, states, all, r@, j) by {
                if j < i {
                    assert(operates_next(k, states0, all, r0, j));
                }
            }
        }
        i += 1;
    }
    assert(operates_through(k, states, all, r@));
    r
}

// ---------------------------------------------------------------------------------------------
// Field indexes

/// The kind of index that a name stands for; an unknown name stands for keywords.
pub open spec fn index_type_named(name: Seq<char>) -> PayloadIndexType {
    if name == "keyword"@ {
        PayloadIndexType::Keyword
    } else if name == "integer"@ {
        PayloadIndexType::Integer
    } else if name == "float"@ {
        PayloadIndexType::Float
    } else if name == "bool"@ {
        PayloadIndexType::Bool
    } else if name == "geo"@ {
        PayloadIndexType::Geo
    } else if name == "text"@ {
        PayloadIndexType::Text
    } else {
        PayloadIndexType::Keyword
    }
}

/// The kind of index that a schema asks for: its name, or an object with the name under `type`.
/// Without one it is keywords.
pub open spec fn index_type_of(schema: Option<JsonV>) -> PayloadIndexType {
    match schema {
        Some(JsonV::Text(name)) => index_type_named(name),
        Some(v) => match v.get_text("type"@) {
            Some(name) => index_type_named(name),
            None => PayloadIndexType::Keyword,
        },
        None => PayloadIndexType::Keyword,
    }
}

fn index_type_by_name(name: &str) -> (r: PayloadIndexType)
    ensures
        r == index_type_named(name@),
{
    if same_text(name, "keyword") {
        PayloadIndexType::Keyword
    } else if same_text(name, "integer") {
        PayloadIndexType::Integer
    } else if same_text(name, "float") {
        PayloadIndexType::Float
    } else if same_text(name, "bool") {
        PayloadIndexType::Bool
    } else if same_text(name, "geo") {
        PayloadIndexType::Geo
    } else if same_text(name, "text") {
        PayloadIndexType::Text
    } else {
        PayloadIndexType::Keyword
    }
}

/// Create field index
pub fn create_field_index(collection: &mut Collection, field_name: &str, field_schema: &Option<Json>) -> (r: u64)
    requires
        old(collection).wf(),
    ensures
        final(collection).wf(),
        final(collection)@ == counted(
            CollectionV {
                payload_indexes: put(
                    old(collection)@.payload_indexes,
                    field_name@,
                    index_type_of(payload_of(*field_schema)),
                ),
                ..old(collection)@
            },
        ),
        r == old(collection)@.operations,
{
    let index_type = match field_schema {
        Some(Json::Text(name)) => index_type_by_name(name.as_str()),
        Some(v) => match v.get_text("type") {
            Some(name) => index_type_by_name(name.as_str()),
            None => PayloadIndexType::Keyword,
        },
        None => PayloadIndexType::Keyword,
    };
    let _ = collection.create_payload_index(field_name, index_type);
    collection.next_operation_id()
}

/// Delete field index
pub fn delete_field_index(collection: &mut Collection, field_name: &str) -> (r: u64)
    requires
        old(collection).wf(),
    ensures
        final(collection).wf(),
        final(collection)@ == counted(
            CollectionV {
                payload_indexes: without(old(collection)@.payload_indexes, field_name@),
                ..old(collection)@
            },
        ),
        r == old(collection)@.operations,
{
    let _ = collection.delete_payload_index(field_name);
    collection.next_operation_id()
}

} // verus!
