//! What messages ask for and are answered with.

use vstd::prelude::*;
use crate::collection::{searches, CollectionV, Error};
use crate::config::Distance;
use crate::explore_laws::lemma_some_example;
use crate::grpc::{
    core_distance, dense_of, first_refusal, keeps_and_answers, keys_of_ids, next_start, page,
    page_limit, params_of, point_kept, points_kept, points_under, query_comes_to,
    recommend_comes_to, search_comes_to, selected_keys, sent, sent_all, sent_scored,
    sent_scored_all, upsert_comes_to, Code, PointStruct, ProtoDistance, Refusal, ScoredPointV,
    VectorParams, VectorVariant, VectorsConfig,
};
use crate::grpc_values::{
    becomes_json, ids_of, key_of_id, law_number_keeps_id, named_of, proto_fields, proto_id,
    proto_of, PointIdOptions, PointIdOptionsV, ProtoValueV,
};
use crate::ieee::{Double, Real};
use crate::json::{JsonV, NumberV};
use crate::kernels::Kernels;
use crate::point::{PointIdV, PointV};
use crate::recommend::found_like;
use crate::request_laws::{at_most_first, lemma_first};
use crate::rest_search::{first, unfiltered};
use crate::rest_write::stores_points;
use crate::store::{keys_distinct, lemma_place_is, lemma_place_of, point_under};
use crate::text::{decimal_of, read_u64_of};

verus! {

// ---------------------------------------------------------------------------------------------
// Identifiers and points

/// Every identifier that a message gives counts, in order: a number as it is written, a text as it
/// is.
pub proof fn law_all_ids_read(ids: Seq<Option<PointIdOptionsV>>, n: u64, s: Seq<char>)
    ensures
        keys_of_ids(ids) == ids.filter_map(|id: Option<PointIdOptionsV>| key_of_id(id)),
        key_of_id(Some(PointIdOptionsV::Num(n))) == Some(decimal_of(n as nat)),
        key_of_id(Some(PointIdOptionsV::Uuid(s))) == Some(s),
        key_of_id(None) is None,
    decreases ids.len(),
{
    reveal(Seq::filter_map);
    let f = |id: Option<PointIdOptionsV>| key_of_id(id);
    if ids.len() > 0 {
        law_all_ids_read(ids.drop_last(), n, s);
        let rest = ids.drop_last().filter_map(f);
        if let Some(key) = key_of_id(ids.last()) {
            assert(rest.push(key) =~= rest + seq![key]);
        }
    } else {
        assert(keys_of_ids(ids) =~= ids.filter_map(f));
    }
}

/// A message that selects no points selects none, one that lists some selects those.
pub proof fn law_selection(ids: Vec<Option<PointIdOptions>>)
    ensures
        selected_keys(Some(ids)) == keys_of_ids(ids_of(ids@)),
        selected_keys(None).len() == 0,
{
}

/// Of the keys that are asked for, every one that leads to a point is answered with it, in order.
pub proof fn law_all_points_got(points: Seq<PointV>, keys: Seq<Seq<char>>)
    ensures
        points_under(points, keys) == keys.filter_map(|key: Seq<char>| point_under(points, key)),
        sent_all(points_under(points, keys)).len() == points_under(points, keys).len(),
    decreases keys.len(),
{
    reveal(Seq::filter_map);
    let f = |key: Seq<char>| point_under(points, key);
    if keys.len() > 0 {
        law_all_points_got(points, keys.drop_last());
        let rest = keys.drop_last().filter_map(f);
        if let Some(p) = point_under(points, keys.last()) {
            assert(rest.push(p) =~= rest + seq![p]);
        }
    } else {
        assert(points_under(points, keys) =~= keys.filter_map(f));
    }
}

/// What is sent of a point: its identifier, its payload member by member, and its vector; of one
/// that was found, its score.
pub proof fn law_points_sent(points: Seq<PointV>, found: Seq<(PointV, Real)>)
    ensures
        sent_all(points).len() == points.len(),
        forall|i: int|
            0 <= i < points.len() ==> (#[trigger] sent_all(points)[i]).id == proto_id(points[i].id) && sent_all(
                points,
            )[i].vector == points[i].vector && sent_all(points)[i].payload == if points[i].payload is Some
                && points[i].payload->0 is Object {
                proto_fields(points[i].payload->0->Object_0)
            } else {
                Seq::empty()
            },
        sent_scored_all(found).len() == found.len(),
        forall|i: int|
            0 <= i < found.len() ==> (#[trigger] sent_scored_all(found)[i]).id == proto_id(found[i].0.id)
                && sent_scored_all(found)[i].score == found[i].1 && sent_scored_all(found)[i].payload == if found[i].0.payload is Some
                && found[i].0.payload->0 is Object {
                proto_fields(found[i].0.payload->0->Object_0)
            } else {
                Seq::empty()
            },
{
    assert forall|i: int| 0 <= i < points.len() implies (#[trigger] sent_all(points)[i]).id == proto_id(points[i].id)
        && sent_all(points)[i].vector == points[i].vector && sent_all(points)[i].payload == if points[i].payload is Some
        && points[i].payload->0 is Object {
        proto_fields(points[i].payload->0->Object_0)
    } else {
        Seq::empty()
    } by {
        assert(sent_all(points)[i] == sent(points[i]));
    }
    assert forall|i: int| 0 <= i < found.len() implies (#[trigger] sent_scored_all(found)[i]).id == proto_id(
        found[i].0.id,
    ) && sent_scored_all(found)[i].score == found[i].1 && sent_scored_all(found)[i].payload == if found[i].0.payload is Some
        && found[i].0.payload->0 is Object {
        proto_fields(found[i].0.payload->0->Object_0)
    } else {
        Seq::empty()
    } by {
        assert(sent_scored_all(found)[i] == sent_scored(found[i]));
    }
}

/// A vector of a message is the plain one, or the first of the named ones.
pub proof fn law_message_vector(data: Vec<Real>, named: Vec<(String, Vec<Real>)>)
    ensures
        dense_of(Some(VectorVariant::Dense(data))) == Some(data@),
        named@.len() > 0 ==> dense_of(Some(VectorVariant::Named(named))) == Some(named@[0].1@),
        named@.len() == 0 ==> dense_of(Some(VectorVariant::Named(named))) is None,
        dense_of(None) is None,
{
}

// ---------------------------------------------------------------------------------------------
// Storing

/// A point of a message needs an identifier and a vector, and is refused for the one that is
/// missing, the identifier first.
pub open spec fn point_complete(p: PointStruct) -> bool {
    p.id is Some && dense_of(p.vectors) is Some
}

/// A message to store points is refused exactly if one of them is not complete, for the first one
/// that is not; then nothing is stored.
pub proof fn law_incomplete_points_refused<K: Kernels>(
    k: &K,
    before: CollectionV,
    ps: Seq<PointStruct>,
    after: CollectionV,
    r: Result<Option<Seq<PointV>>, Refusal>,
    i: int,
)
    requires
        upsert_comes_to(k, before, ps, after, r),
        0 <= i < ps.len(),
        !point_complete(ps[i]),
        forall|j: int| 0 <= j < i ==> point_complete(#[trigger] ps[j]),
    ensures
        after == before,
        r == Err::<Option<Seq<PointV>>, Refusal>(
            if ps[i].id is None {
                Refusal::PointIdRequired
            } else {
                Refusal::VectorRequired
            },
        ),
{
    lemma_first_refusal(ps, i);
}

proof fn lemma_first_refusal(ps: Seq<PointStruct>, i: int)
    requires
        0 <= i < ps.len(),
        !point_complete(ps[i]),
        forall|j: int| 0 <= j < i ==> point_complete(#[trigger] ps[j]),
    ensures
        first_refusal(ps) == Some(
            if ps[i].id is None {
                Refusal::PointIdRequired
            } else {
                Refusal::VectorRequired
            },
        ),
    decreases ps.len(),
{
    let rest = ps.drop_last();
    if i < rest.len() {
        assert(rest[i] == ps[i]);
        assert forall|j: int| 0 <= j < i implies point_complete(#[trigger] rest[j]) by {
            assert(rest[j] == ps[j]);
        }
        lemma_first_refusal(rest, i);
    } else {
        assert forall|j: int| 0 <= j < rest.len() implies point_complete(#[trigger] rest[j]) by {
            assert(rest[j] == ps[j]);
        }
        lemma_no_refusal(rest);
    }
}

proof fn lemma_no_refusal(ps: Seq<PointStruct>)
    requires
        forall|j: int| 0 <= j < ps.len() ==> point_complete(#[trigger] ps[j]),
    ensures
        first_refusal(ps) is None,
    decreases ps.len(),
{
    if ps.len() > 0 {
        let rest = ps.drop_last();
        assert forall|j: int| 0 <= j < rest.len() implies point_complete(#[trigger] rest[j]) by {
            assert(rest[j] == ps[j]);
        }
        lemma_no_refusal(rest);
        assert(point_complete(ps[ps.len() - 1]));
    }
}

/// A point is the one that a message gives: under its identifier, with its vector and with its
/// payload, every value under its name, or without a payload where the message gives no value.
pub open spec fn as_given<K: Kernels>(k: &K, p: PointStruct, point: PointV) -> bool {
    &&& point.id == match p.id {
        Some(PointIdOptions::Num(n)) => PointIdV::Integer(n),
        Some(PointIdOptions::Uuid(s)) => match read_u64_of(s@) {
            Some(n) => PointIdV::Integer(n),
            None => PointIdV::String(s@),
        },
        None => point.id,
    }
    &&& point.vector == dense_of(p.vectors)->0
    &&& point.multivector is None
    &&& point.sparse_vectors.len() == 0
    &&& (point.payload is None) == (p.payload@.len() == 0)
    &&& point.payload matches Some(payload) ==> payload is Object && payload->Object_0.len() == p.payload@.len()
        && forall|i: int|
        0 <= i < p.payload@.len() ==> (#[trigger] payload->Object_0[i]).0 == p.payload@[i].0@ && becomes_json(
            k,
            p.payload@[i].1@,
            payload->Object_0[i].1,
        )
}

proof fn lemma_as_given<K: Kernels>(k: &K, p: PointStruct, point: PointV)
    requires
        point_kept(k, p, point),
    ensures
        as_given(k, p, point),
{
    let named = named_of(p.payload@);
    if let Some(PointIdOptions::Num(n)) = p.id {
        law_number_keeps_id(n);
    }
    if named.len() > 0 {
        let e = point.payload->0->Object_0;
        assert forall|i: int| 0 <= i < p.payload@.len() implies (#[trigger] e[i]).0 == p.payload@[i].0@ && becomes_json(
            k,
            p.payload@[i].1@,
            e[i].1,
        ) by {
            assert(named[i] == (p.payload@[i].0@, p.payload@[i].1@));
        }
    }
}

/// All points are as a message gives them.
pub open spec fn points_as_given<K: Kernels>(k: &K, ps: Seq<PointStruct>, points: Seq<PointV>) -> bool {
    points.len() == ps.len() && forall|i: int| 0 <= i < ps.len() ==> as_given(k, ps[i], #[trigger] points[i])
}

/// A message whose points are complete stores all of them, each with its vector and under its
/// identifier; a fault of storing is passed on.
pub proof fn law_complete_points_stored<K: Kernels>(
    k: &K,
    before: CollectionV,
    ps: Seq<PointStruct>,
    after: CollectionV,
    r: Result<Option<Seq<PointV>>, Refusal>,
)
    requires
        upsert_comes_to(k, before, ps, after, r),
        forall|j: int| 0 <= j < ps.len() ==> point_complete(#[trigger] ps[j]),
    ensures
        r is Err ==> r->Err_0 is Core,
        exists|points: Seq<PointV>| #[trigger]
            points_as_given(k, ps, points) && stores_points(
                k,
                before,
                points,
                false,
                after,
                match r {
                    Ok(job) => Ok(job),
                    Err(e) => Err(e->Core_0),
                },
            ),
{
    lemma_no_refusal(ps);
    let points = choose|points: Seq<PointV>| #[trigger]
        points_kept(k, ps, points) && keeps_and_answers(k, before, points, after, r);
    assert forall|i: int| 0 <= i < ps.len() implies as_given(k, ps[i], #[trigger] points[i]) by {
        assert(point_kept(k, ps[i], points[i]));
        lemma_as_given(k, ps[i], points[i]);
    }
    assert(points_as_given(k, ps, points));
}

/// Several points are stored as a batch, one by itself, and none does nothing.
pub proof fn law_few_points_stored<K: Kernels>(
    k: &K,
    before: CollectionV,
    points: Seq<PointV>,
    prewarm: bool,
    after: CollectionV,
    r: Result<Option<Seq<PointV>>, Error>,
)
    requires
        stores_points(k, before, points, prewarm, after, r),
        points.len() <= 1,
    ensures
        points.len() == 0 ==> after == before && r is Ok,
        points.len() == 1 ==> (r is Ok) == (before.config.vector_dim == 0 || points[0].vector.len()
            == before.config.vector_dim),
        r matches Ok(job) ==> job is None,
        r is Err ==> after == before,
{
}

// ---------------------------------------------------------------------------------------------
// Searching

/// A message to search is answered with what a search without a filter finds, each with its score;
/// one without a vector is refused.
pub proof fn law_message_search<K: Kernels>(
    k: &K,
    before: CollectionV,
    query: Option<Seq<Real>>,
    limit: usize,
    after: CollectionV,
    r: Result<Seq<ScoredPointV>, Refusal>,
)
    requires
        query_comes_to(k, before, query, limit, after, r),
    ensures
        (r is Ok) == (query is Some),
        r is Err ==> after == before && r->Err_0 == Refusal::QueryVectorRequired,
        r is Ok ==> exists|found: Seq<(PointV, Real)>| #[trigger]
            searches(k, before, query->0, limit, unfiltered(), after, found) && r->Ok_0 == sent_scored_all(found),
{
    if let Some(vector) = query {
        assert(search_comes_to(k, before, vector, limit, after, r->Ok_0));
    }
}

/// A message for recommendations is answered with the first of what a search from the examples
/// finds, at most as many as asked for; without a stored example that is liked it is refused.
pub proof fn law_message_recommend<K: Kernels>(
    k: &K,
    before: CollectionV,
    liked: Seq<Seq<char>>,
    disliked: Seq<Seq<char>>,
    limit: usize,
    after: CollectionV,
    r: Result<Seq<ScoredPointV>, Refusal>,
)
    requires
        recommend_comes_to(k, before, liked, disliked, limit, after, r),
    ensures
        r is Err ==> after == before && r->Err_0 == Refusal::PositiveRequired,
        (r is Err) == forall|i: int| 0 <= i < liked.len() ==> point_under(before.points, #[trigger] liked[i]) is None,
        r is Ok ==> exists|found: Seq<(PointV, Real)>| #[trigger]
            found_like(k, before, liked, disliked, limit, after, found) && r->Ok_0 == sent_scored_all(
                at_most_first(found, limit),
            ),
{
    lemma_some_example(before.points, liked);
    if r is Ok {
        let found = choose|found: Seq<(PointV, Real)>| #[trigger]
            found_like(k, before, liked, disliked, limit, after, found) && r->Ok_0 == sent_scored_all(
                first(found, limit as nat),
            );
        lemma_first(found, limit);
    }
}

// ---------------------------------------------------------------------------------------------
// Pages

/// A page holds the points behind the one that it starts from, or from the front on, as many as
/// there are up to the limit, or ten; from a point that is not there it holds none.
pub proof fn law_message_page(points: Seq<PointV>, limit: nat, at: int, missing: Seq<char>, n: u32)
    requires
        keys_distinct(points),
        0 <= at < points.len(),
        point_under(points, missing) is None,
    ensures
        page(points, None, limit) == points.take(
            if limit <= points.len() {
                limit as int
            } else {
                points.len() as int
            },
        ),
        page(points, Some(points[at].key()), limit) == points.subrange(
            at + 1,
            if at + 1 + limit <= points.len() {
                at + 1 + limit
            } else {
                points.len() as int
            },
        ),
        page(points, Some(missing), limit).len() == 0,
        page_limit(None) == 10,
        page_limit(Some(n)) == n,
{
    lemma_place_is(points, at);
    lemma_place_of(points, missing);
    assert(points.skip(0) =~= points);
    assert(page(points, None, limit) =~= points.take(
        if limit <= points.len() {
            limit as int
        } else {
            points.len() as int
        },
    ));
    assert(page(points, Some(points[at].key()), limit) =~= points.subrange(
        at + 1,
        if at + 1 + limit <= points.len() {
            at + 1 + limit
        } else {
            points.len() as int
        },
    ));
}

/// A full page says by which point the next one starts: its last one.
pub proof fn law_message_next(this: Seq<PointV>, limit: nat)
    ensures
        (next_start(this, limit) is Some) == (this.len() == limit && limit > 0),
        next_start(this, limit) matches Some(id) ==> id == proto_id(this[this.len() - 1].id),
{
}

// ---------------------------------------------------------------------------------------------
// Values, configurations and refusals

/// Values of messages become JSON of their kind, and JSON becomes values of its kind: texts and
/// truth values as they are, whole numbers as whole numbers, anything else as a double-precision
/// number; what is no finite number becomes null.
pub proof fn law_value_kinds<K: Kernels>(k: &K, t: Seq<char>, b: bool, n: i64, d: Double, x: NumberV, j: JsonV)
    ensures
        becomes_json(k, ProtoValueV::Text(t), j) == (j == JsonV::Text(t)),
        becomes_json(k, ProtoValueV::Bool(b), j) == (j == JsonV::Bool(b)),
        becomes_json(k, ProtoValueV::Null, j) == (j is Null),
        becomes_json(k, ProtoValueV::Absent, j) == (j is Null),
        becomes_json(k, ProtoValueV::Integer(n), j) ==> j is Number && j->Number_0.integer() == Some(n),
        d.finite() && becomes_json(k, ProtoValueV::Double(d), j) ==> j is Number && j->Number_0.double == d
            && j->Number_0.integer() is None,
        !d.finite() ==> becomes_json(k, ProtoValueV::Double(d), j) == (j is Null),
        proto_of(JsonV::Text(t)) == ProtoValueV::Text(t),
        proto_of(JsonV::Bool(b)) == ProtoValueV::Bool(b),
        proto_of(JsonV::Null) == ProtoValueV::Null,
        x.integer() matches Some(i) ==> proto_of(JsonV::Number(x)) == ProtoValueV::Integer(i),
        x.integer() is None ==> proto_of(JsonV::Number(x)) == ProtoValueV::Double(x.double),
{
}

/// The vectors of a collection are configured by the plain parameters, or by the first of the
/// named ones.
pub proof fn law_message_parameters(p: VectorParams, named: Vec<(String, VectorParams)>)
    ensures
        params_of(Some(VectorsConfig::Params(p))) == Some(p),
        named@.len() > 0 ==> params_of(Some(VectorsConfig::ParamsMap(named))) == Some(named@[0].1),
        named@.len() == 0 ==> params_of(Some(VectorsConfig::ParamsMap(named))) is None,
        params_of(None) is None,
        core_distance(ProtoDistance::Cosine) == Distance::Cosine,
        core_distance(ProtoDistance::Euclid) == Distance::Euclidean,
        core_distance(ProtoDistance::Dot) == Distance::Dot,
        core_distance(ProtoDistance::Other) == Distance::Cosine,
{
}

/// What is not found is answered as such, a fault of the collection as an internal one, and
/// everything else as a fault of the request.
pub proof fn law_refusals_told_apart(r: Refusal)
    ensures
        (r.kind() == Code::NotFound) == (r is CollectionNotFound || r is SnapshotNotFound),
        (r.kind() == Code::Internal) == (r is Core),
{
}

} // verus!
