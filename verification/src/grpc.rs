//! The gRPC interface: what each request comes to.

use vstd::prelude::*;
use crate::api::{core_problem, joined, ApiError};
use crate::collection::{searches, upserts, Collection, CollectionV, Error};
use crate::config::{CollectionConfig, CollectionConfigV, Distance};
use crate::filter::PayloadFilter;
use crate::grpc_values::{
    become_fields, becomes_json, id_of, id_with_key, ids_of, json_ready, json_to_proto_value,
    key_of_id, law_key_kept, law_number_keeps_id, law_proto_id_keeps_key, law_value_comes_back,
    named_of, parse_point_id, point_id, proto_fields, proto_id, proto_of, proto_value_to_json,
    to_proto_point_id, PointIdOptions, PointIdOptionsV, ProtoValue, ProtoValueV,
};
use crate::hnsw::scored_of;
use crate::ieee::Real;
use crate::json::{fields, lemma_object, texts, Json, JsonV};
use crate::kernels::Kernels;
use crate::lists::lemma_prefix_grows;
use crate::point::{copy_reals, payload_of, plain_point, Point, PointV, Vector};
use crate::recommend::{example_rows, found_like, like_span, search_like};
use crate::rest_search::{first, unfiltered};
use crate::rest_write::{deleted_all, store_points, stores_points};
use crate::scoring::pass_of;
use crate::store::{
    keys_distinct, law_stored_then_found, lemma_place_is, lemma_place_of, place_of, point_under,
    points_view,
};
use crate::text::{copied, decimal, decimal_of, read_u64_of, same_text};

verus! {

// ---------------------------------------------------------------------------------------------
// Services

/// Answers whether the server is there.
pub struct QdrantService;

/// What the server says of itself.
pub struct HealthCheckReply {
    pub title: String,
    pub version: String,
}

impl QdrantService {
    pub fn health_check(&self, version: &str) -> (r: HealthCheckReply)
        ensures
            r.title@ == "vectx"@,
            r.version@ == version@,
    {
        HealthCheckReply { title: copied("vectx"), version: copied(version) }
    }
}

/// Answers requests about collections, which it finds in a storage.
pub struct CollectionsService<S> {
    pub storage: S,
}

impl<S> CollectionsService<S> {
    pub fn new(storage: S) -> (r: Self)
        ensures
            r.storage == storage,
    {
        CollectionsService { storage }
    }
}

/// Answers requests about points, whose collections it finds in a storage.
pub struct PointsService<S> {
    pub storage: S,
}

impl<S> PointsService<S> {
    pub fn new(storage: S) -> (r: Self)
        ensures
            r.storage == storage,
    {
        PointsService { storage }
    }
}

/// Answers requests about snapshots, which it finds in a storage.
pub struct SnapshotsService<S> {
    pub storage: S,
}

impl<S> SnapshotsService<S> {
    pub fn new(storage: S) -> (r: Self)
        ensures
            r.storage == storage,
    {
        SnapshotsService { storage }
    }
}

/// The gRPC server.
pub struct GrpcApi;

impl GrpcApi {
    /// The address that the server listens on.
    pub fn address(port: u16) -> (r: String)
        ensures
            r@ == "0.0.0.0:"@ + decimal_of(port as nat),
    {
        let digits = decimal(port as u64);
        joined("0.0.0.0:", digits.as_str())
    }
}

/// Why a request is refused.
pub enum Refusal {
    CollectionNotFound,
    SnapshotNotFound,
    PointIdRequired,
    VectorRequired,
    QueryVectorRequired,
    PositiveRequired,
    VectorConfigRequired,
    Core(Error),
}

/// The kind of a refusal.
#[derive(Clone, Copy, Debug, PartialEq, Eq, Structural)]
pub enum Code {
    NotFound,
    InvalidArgument,
    Internal,
}

impl Refusal {
    pub open spec fn kind(self) -> Code {
        match self {
            Refusal::CollectionNotFound => Code::NotFound,
            Refusal::SnapshotNotFound => Code::NotFound,
            Refusal::Core(_) => Code::Internal,
            _ => Code::InvalidArgument,
        }
    }

    /// The refusal in words.
    pub open spec fn words(self) -> Seq<char> {
        match self {
            Refusal::CollectionNotFound => "Collection not found"@,
            Refusal::SnapshotNotFound => "Snapshot not found"@,
            Refusal::PointIdRequired => "Point ID required"@,
            Refusal::VectorRequired => "Vector required"@,
            Refusal::QueryVectorRequired => "Query vector required"@,
            Refusal::PositiveRequired => "At least one valid positive example required"@,
            Refusal::VectorConfigRequired => "Vector configuration required"@,
            Refusal::Core(e) => core_problem(e),
        }
    }

    pub fn code(&self) -> (r: Code)
        ensures
            r == self.kind(),
    {
        match self {
            Refusal::CollectionNotFound => Code::NotFound,
            Refusal::SnapshotNotFound => Code::NotFound,
            Refusal::Core(_) => Code::Internal,
            _ => Code::InvalidArgument,
        }
    }

    pub fn message(&self) -> (r: String)
        ensures
            r@ == self.words(),
    {
        match self {
            Refusal::CollectionNotFound => copied("Collection not found"),
            Refusal::SnapshotNotFound => copied("Snapshot not found"),
            Refusal::PointIdRequired => copied("Point ID required"),
            Refusal::VectorRequired => copied("Vector required"),
            Refusal::QueryVectorRequired => copied("Query vector required"),
            Refusal::PositiveRequired => copied("At least one valid positive example required"),
            Refusal::VectorConfigRequired => copied("Vector configuration required"),
            Refusal::Core(e) => ApiError::Core(*e).message(),
        }
    }
}

// ---------------------------------------------------------------------------------------------
// Vectors and points in messages

/// The vector of a point or of a query in a message: one vector, or several with names.
pub enum VectorVariant {
    Dense(Vec<Real>),
    Named(Vec<(String, Vec<Real>)>),
}

/// The vector that counts: of several with names the first.
pub open spec fn dense_of(v: Option<VectorVariant>) -> Option<Seq<Real>> {
    match v {
        Some(VectorVariant::Dense(data)) => Some(data@),
        Some(VectorVariant::Named(list)) => if list@.len() > 0 {
            Some(list@[0].1@)
        } else {
            None
        },
        None => None,
    }
}

fn read_dense(v: &Option<VectorVariant>) -> (r: Option<Vec<Real>>)
    ensures
        dense_of(*v) == match r {
            Some(data) => Some(data@),
            None => None,
        },
{
    match v {
        Some(VectorVariant::Dense(data)) => Some(copy_reals(data)),
        Some(VectorVariant::Named(list)) => if list.len() > 0 {
            Some(copy_reals(&list[0].1))
        } else {
            None
        },
        None => None,
    }
}

/// A point to be stored.
pub struct PointStruct {
    pub id: Option<PointIdOptions>,
    pub vectors: Option<VectorVariant>,
    pub payload: Vec<(String, ProtoValue)>,
}

/// Why a point cannot be stored: it needs an identifier, then a vector.
pub open spec fn refusal_of_point(p: PointStruct) -> Option<Refusal> {
    if key_of_id(id_of(p.id)) is None {
        Some(Refusal::PointIdRequired)
    } else if dense_of(p.vectors) is None {
        Some(Refusal::VectorRequired)
    } else {
        None
    }
}

/// Why the first of several points that cannot be stored is refused.
pub open spec fn first_refusal(ps: Seq<PointStruct>) -> Option<Refusal>
    decreases ps.len(),
{
    if ps.len() == 0 {
        None
    } else {
        match first_refusal(ps.drop_last()) {
            Some(e) => Some(e),
            None => refusal_of_point(ps.last()),
        }
    }
}

/// `payload` is what is kept of the payload of a message; an empty one is none.
pub open spec fn payload_kept<K: Kernels>(
    k: &K,
    named: Seq<(Seq<char>, ProtoValueV)>,
    payload: Option<JsonV>,
) -> bool {
    if named.len() == 0 {
        payload is None
    } else {
        payload is Some && payload->0 is Object && become_fields(k, named, payload->0->Object_0)
    }
}

/// `point` is the point that a message stores.
pub open spec fn point_kept<K: Kernels>(k: &K, p: PointStruct, point: PointV) -> bool {
    &&& refusal_of_point(p) is None
    &&& payload_kept(k, named_of(p.payload@), point.payload)
    &&& point == plain_point(id_with_key(key_of_id(id_of(p.id))->0), dense_of(p.vectors)->0, point.payload)
}

pub open spec fn points_kept<K: Kernels>(k: &K, ps: Seq<PointStruct>, points: Seq<PointV>) -> bool {
    points.len() == ps.len() && forall|i: int| 0 <= i < ps.len() ==> point_kept(k, #[trigger] ps[i], points[i])
}

fn keep_payload<K: Kernels>(k: &K, named: &Vec<(String, ProtoValue)>) -> (r: Option<Json>)
    ensures
        payload_kept(k, named_of(named@), payload_of(r)),
{
    if named.len() == 0 {
        return None;
    }
    let ghost all = named_of(named@);
    let mut w: Vec<(String, Json)> = Vec::new();
    let mut i: usize = 0;
    while i < named.len()
        invariant
            i <= named@.len(),
            all == named_of(named@),
            w@.len() == i,
            become_fields(k, all.take(i as int), fields(w@)),
        decreases named@.len() - i,
    {
        let ghost w0 = w@;
        let x = proto_value_to_json(k, &named[i].1);
        let ghost entry = (named@[i as int].0@, x@);
        w.push((named[i].0.clone(), x));
        proof {
            lemma_prefix_grows(all, i as int);
            assert(fields(w@) =~= fields(w0).push(entry));
            let longer = all.take(i + 1);
            assert forall|j: int| 0 <= j < longer.len() implies fields(w@)[j].0 == (#[trigger] longer[j]).0
                && becomes_json(k, longer[j].1, fields(w@)[j].1) by {
                if j < i {
                    assert(longer[j] == all.take(i as int)[j]);
                    assert(fields(w@)[j] == fields(w0)[j]);
                }
            }
        }
        i += 1;
    }
    proof {
        assert(all.take(i as int) =~= all);
        lemma_object(w);
    }
    Some(Json::Object(w))
}

fn keep_point<K: Kernels>(k: &K, p: &PointStruct) -> (r: Result<Point, Refusal>)
    ensures
        match r {
            Ok(point) => point_kept(k, *p, point@),
            Err(e) => refusal_of_point(*p) == Some(e),
        },
{
    let key = match parse_point_id(&p.id) {
        Some(key) => key,
        None => {
            return Err(Refusal::PointIdRequired);
        },
    };
    let data = match read_dense(&p.vectors) {
        Some(data) => data,
        None => {
            return Err(Refusal::VectorRequired);
        },
    };
    let payload = keep_payload(k, &p.payload);
    Ok(Point::new(point_id(key), Vector::new(data), payload))
}

proof fn lemma_refusal_stays(ps: Seq<PointStruct>, i: int)
    requires
        0 <= i <= ps.len(),
        first_refusal(ps.take(i)) is Some,
    ensures
        first_refusal(ps) == first_refusal(ps.take(i)),
    decreases ps.len() - i,
{
    if i < ps.len() {
        lemma_prefix_grows(ps, i);
        lemma_refusal_stays(ps, i + 1);
    } else {
        assert(ps.take(i) =~= ps);
    }
}

fn keep_points<K: Kernels>(k: &K, ps: &Vec<PointStruct>) -> (r: Result<Vec<Point>, Refusal>)
    ensures
        match r {
            Ok(points) => first_refusal(ps@) is None && points_kept(k, ps@, points_view(points@)),
            Err(e) => first_refusal(ps@) == Some(e),
        },
{
    let mut r: Vec<Point> = Vec::new();
    let mut i: usize = 0;
    while i < ps.len()
        invariant
            i <= ps@.len(),
            r@.len() == i,
            first_refusal(ps@.take(i as int)) is None,
            forall|j: int| 0 <= j < i ==> point_kept(k, #[trigger] ps@[j], points_view(r@)[j]),
        decreases ps@.len() - i,
    {
        proof {
            lemma_prefix_grows(ps@, i as int);
        }
        match keep_point(k, &ps[i]) {
            Ok(p) => {
                let ghost r0 = r@;
                let ghost pv = p@;
                r.push(p);
                assert(points_view(r@) =~= points_view(r0).push(pv));
            },
            Err(e) => {
                proof {
                    lemma_refusal_stays(ps@, i + 1);
                }
                return Err(e);
            },
        }
        i += 1;
    }
    assert(ps@.take(i as int) =~= ps@);
    Ok(r)
}

// ---------------------------------------------------------------------------------------------
// Changing points

/// Storing the points of a message, and the answer.
pub open spec fn keeps_and_answers<K: Kernels>(
    k: &K,
    before: CollectionV,
    points: Seq<PointV>,
    after: CollectionV,
    r: Result<Option<Seq<PointV>>, Refusal>,
) -> bool {
    stores_points(
        k,
        before,
        points,
        false,
        after,
        match r {
            Ok(job) => Ok(job),
            Err(e) => Err(e->Core_0),
        },
    ) && (r is Err ==> r->Err_0 is Core)
}

/// What a request to store points comes to. If one of them cannot be stored, none is.
pub open spec fn upsert_comes_to<K: Kernels>(
    k: &K,
    before: CollectionV,
    ps: Seq<PointStruct>,
    after: CollectionV,
    r: Result<Option<Seq<PointV>>, Refusal>,
) -> bool {
    match first_refusal(ps) {
        Some(e) => after == before && r == Err::<Option<Seq<PointV>>, Refusal>(e),
        None => exists|points: Seq<PointV>| #[trigger]
            points_kept(k, ps, points) && keeps_and_answers(k, before, points, after, r),
    }
}

/// The points to rebuild an index from, or why a request is refused.
pub open spec fn job_of(r: Result<Option<Vec<Point>>, Refusal>) -> Result<Option<Seq<PointV>>, Refusal> {
    match r {
        Ok(Some(v)) => Ok(Some(points_view(v@))),
        Ok(None) => Ok(None),
        Err(e) => Err(e),
    }
}

/// Stores points: several as a batch, one by itself. Returns the points to rebuild the index
/// from, if that is due.
pub fn upsert<K: Kernels>(collection: &mut Collection, k: &K, ps: &Vec<PointStruct>) -> (r: Result<
    Option<Vec<Point>>,
    Refusal,
>)
    requires
        old(collection).wf(),
    ensures
        final(collection).wf(),
        upsert_comes_to(k, old(collection)@, ps@, final(collection)@, job_of(r)),
{
    let points = match keep_points(k, ps) {
        Ok(points) => points,
        Err(e) => {
            return Err(e);
        },
    };
    let ghost before = collection@;
    let ghost kept = points_view(points@);
    match store_points(collection, k, points, false) {
        Ok(job) => {
            let r = Ok(job);
            assert(keeps_and_answers(k, before, kept, collection@, job_of(r)));
            r
        },
        Err(e) => {
            let r: Result<Option<Vec<Point>>, Refusal> = Err(Refusal::Core(e));
            assert(keeps_and_answers(k, before, kept, collection@, job_of(r)));
            r
        },
    }
}

/// The keys that identifiers lead to.
pub open spec fn keys_of_ids(ids: Seq<Option<PointIdOptionsV>>) -> Seq<Seq<char>>
    decreases ids.len(),
{
    if ids.len() == 0 {
        Seq::empty()
    } else {
        match key_of_id(ids.last()) {
            Some(key) => keys_of_ids(ids.drop_last()).push(key),
            None => keys_of_ids(ids.drop_last()),
        }
    }
}

/// Reads the keys that identifiers lead to.
pub fn read_ids(ids: &Vec<Option<PointIdOptions>>) -> (r: Vec<String>)
    ensures
        texts(r@) == keys_of_ids(ids_of(ids@)),
{
    let ghost all = ids_of(ids@);
    let mut r: Vec<String> = Vec::new();
    let mut i: usize = 0;
    assert(texts(r@) =~= keys_of_ids(all.take(0)));
    while i < ids.len()
        invariant
            i <= ids@.len(),
            all == ids_of(ids@),
            texts(r@) == keys_of_ids(all.take(i as int)),
        decreases ids@.len() - i,
    {
        proof {
            lemma_prefix_grows(all, i as int);
        }
        match parse_point_id(&ids[i]) {
            Some(key) => {
                let ghost r0 = r@;
                let ghost key_v = key@;
                r.push(key);
                assert(texts(r@) =~= texts(r0).push(key_v));
            },
            None => {},
        }
        i += 1;
    }
    assert(all.take(i as int) =~= all);
    r
}

/// The keys of a selection of points; a selection that does not list them selects none.
pub open spec fn selected_keys(selection: Option<Vec<Option<PointIdOptions>>>) -> Seq<Seq<char>> {
    match selection {
        Some(ids) => keys_of_ids(ids_of(ids@)),
        None => Seq::empty(),
    }
}

/// Deletes the points of a selection.
pub fn delete(collection: &mut Collection, selection: &Option<Vec<Option<PointIdOptions>>>)
    requires
        old(collection).wf(),
    ensures
        final(collection).wf(),
        final(collection)@ == deleted_all(old(collection)@, selected_keys(*selection)),
{
    match selection {
        Some(ids) => {
            let keys = read_ids(ids);
            let ghost before = collection@;
            let ghost all = texts(keys@);
            let mut i: usize = 0;
            assert(all.take(0) =~= Seq::<Seq<char>>::empty());
            while i < keys.len()
                invariant
                    collection.wf(),
                    i <= keys@.len(),
                    all == texts(keys@),
                    collection@ == deleted_all(before, all.take(i as int)),
                decreases keys@.len() - i,
            {
                proof {
                    lemma_prefix_grows(all, i as int);
                }
                let _ = collection.delete(keys[i].as_str());
                i += 1;
            }
            assert(all.take(i as int) =~= all);
        },
        None => {},
    }
}

// ---------------------------------------------------------------------------------------------
// Reading points

/// A point that was read.
pub struct RetrievedPoint {
    pub id: PointIdOptions,
    pub payload: Vec<(String, ProtoValue)>,
    pub vector: Vec<Real>,
}

#[verifier::ext_equal]
pub struct RetrievedPointV {
    pub id: PointIdOptionsV,
    pub payload: Seq<(Seq<char>, ProtoValueV)>,
    pub vector: Seq<Real>,
}

impl View for RetrievedPoint {
    type V = RetrievedPointV;

    open spec fn view(&self) -> RetrievedPointV {
        RetrievedPointV { id: self.id@, payload: named_of(self.payload@), vector: self.vector@ }
    }
}

pub open spec fn retrieved_of(v: Seq<RetrievedPoint>) -> Seq<RetrievedPointV> {
    Seq::new(v.len(), |i: int| v[i]@)
}

/// A point that was found.
pub struct ScoredPoint {
    pub id: PointIdOptions,
    pub payload: Vec<(String, ProtoValue)>,
    pub score: Real,
    pub version: u64,
}

#[verifier::ext_equal]
pub struct ScoredPointV {
    pub id: PointIdOptionsV,
    pub payload: Seq<(Seq<char>, ProtoValueV)>,
    pub score: Real,
    pub version: u64,
}

impl View for ScoredPoint {
    type V = ScoredPointV;

    open spec fn view(&self) -> ScoredPointV {
        ScoredPointV { id: self.id@, payload: named_of(self.payload@), score: self.score, version: self.version }
    }
}

pub open spec fn scored_points_of(v: Seq<ScoredPoint>) -> Seq<ScoredPointV> {
    Seq::new(v.len(), |i: int| v[i]@)
}

/// The payload of a stored point as a message carries it: the members of an object, or nothing.
pub open spec fn sent_payload(payload: Option<JsonV>) -> Seq<(Seq<char>, ProtoValueV)> {
    match payload {
        Some(JsonV::Object(e)) => proto_fields(e),
        _ => Seq::empty(),
    }
}

/// A stored point as a message carries it.
pub open spec fn sent(point: PointV) -> RetrievedPointV {
    RetrievedPointV { id: proto_id(point.id), payload: sent_payload(point.payload), vector: point.vector }
}

/// A found point as a message carries it; the version is always given as 0.
pub open spec fn sent_scored(found: (PointV, Real)) -> ScoredPointV {
    ScoredPointV { id: proto_id(found.0.id), payload: sent_payload(found.0.payload), score: found.1, version: 0 }
}

pub open spec fn sent_all(points: Seq<PointV>) -> Seq<RetrievedPointV> {
    Seq::new(points.len(), |i: int| sent(points[i]))
}

pub open spec fn sent_scored_all(found: Seq<(PointV, Real)>) -> Seq<ScoredPointV> {
    Seq::new(found.len(), |i: int| sent_scored(found[i]))
}

fn send_payload(payload: &Option<Json>) -> (r: Vec<(String, ProtoValue)>)
    ensures
        named_of(r@) == sent_payload(payload_of(*payload)),
{
    let mut r: Vec<(String, ProtoValue)> = Vec::new();
    match payload {
        Some(Json::Object(e)) => {
            proof {
                lemma_object(*e);
            }
            let mut i: usize = 0;
            while i < e.len()
                invariant
                    i <= e@.len(),
                    r@.len() == i,
                    forall|j: int|
                        0 <= j < i ==> (#[trigger] r@[j]).0@ == e@[j].0@ && r@[j].1@ == proto_of(e@[j].1@),
                decreases e@.len() - i,
            {
                r.push((e[i].0.clone(), json_to_proto_value(&e[i].1)));
                i += 1;
            }
            assert(named_of(r@) =~= proto_fields(fields(e@)));
            r
        },
        _ => {
            assert(named_of(r@) =~= Seq::<(Seq<char>, ProtoValueV)>::empty());
            r
        },
    }
}

fn send(point: &Point) -> (r: RetrievedPoint)
    ensures
        r@ == sent(point@),
{
    RetrievedPoint {
        id: to_proto_point_id(&point.id),
        payload: send_payload(&point.payload),
        vector: copy_reals(&point.vector.data),
    }
}

/// Found points as a message carries them.
pub fn send_scored(found: &Vec<(Point, Real)>) -> (r: Vec<ScoredPoint>)
    ensures
        scored_points_of(r@) == sent_scored_all(scored_of(found@)),
{
    let mut r: Vec<ScoredPoint> = Vec::new();
    let mut i: usize = 0;
    while i < found.len()
        invariant
            i <= found@.len(),
            r@.len() == i,
            forall|j: int| 0 <= j < i ==> (#[trigger] r@[j])@ == sent_scored(scored_of(found@)[j]),
        decreases found@.len() - i,
    {
        r.push(
            ScoredPoint {
                id: to_proto_point_id(&found[i].0.id),
                payload: send_payload(&found[i].0.payload),
                score: found[i].1,
                version: 0,
            },
        );
        i += 1;
    }
    assert(scored_points_of(r@) =~= sent_scored_all(scored_of(found@)));
    r
}

/// The points under keys, without those that are not there.
pub open spec fn points_under(points: Seq<PointV>, keys: Seq<Seq<char>>) -> Seq<PointV>
    decreases keys.len(),
{
    if keys.len() == 0 {
        Seq::empty()
    } else {
        match point_under(points, keys.last()) {
            Some(p) => points_under(points, keys.drop_last()).push(p),
            None => points_under(points, keys.drop_last()),
        }
    }
}

/// Reads points by their identifiers.
pub fn get(collection: &Collection, ids: &Vec<Option<PointIdOptions>>) -> (r: Vec<RetrievedPoint>)
    requires
        collection.wf(),
    ensures
        retrieved_of(r@) == sent_all(points_under(collection@.points, keys_of_ids(ids_of(ids@)))),
{
    let keys = read_ids(ids);
    let ghost all = texts(keys@);
    let ghost points = collection@.points;
    let mut r: Vec<RetrievedPoint> = Vec::new();
    let mut i: usize = 0;
    assert(retrieved_of(r@) =~= sent_all(points_under(points, all.take(0))));
    while i < keys.len()
        invariant
            collection.wf(),
            points == collection@.points,
            i <= keys@.len(),
            all == texts(keys@),
            retrieved_of(r@) == sent_all(points_under(points, all.take(i as int))),
        decreases keys@.len() - i,
    {
        proof {
            lemma_prefix_grows(all, i as int);
        }
        match collection.get(keys[i].as_str()) {
            Some(p) => {
                let ghost r0 = r@;
                let ghost found = points_under(points, all.take(i as int));
                r.push(send(&p));
                assert(retrieved_of(r@) =~= retrieved_of(r0).push(sent(p@)));
                assert(sent_all(found.push(p@)) =~= sent_all(found).push(sent(p@)));
            },
            None => {},
        }
        i += 1;
    }
    assert(all.take(i as int) =~= all);
    r
}

/// What a search near a vector comes to.
pub open spec fn search_comes_to<K: Kernels>(
    k: &K,
    before: CollectionV,
    query: Seq<Real>,
    limit: usize,
    after: CollectionV,
    r: Seq<ScoredPointV>,
) -> bool {
    exists|found: Seq<(PointV, Real)>| #[trigger]
        searches(k, before, query, limit, unfiltered(), after, found) && r == sent_scored_all(found)
}

/// Searches near a vector.
pub fn search<K: Kernels>(collection: &mut Collection, k: &K, vector: Vec<Real>, limit: usize) -> (r: Vec<ScoredPoint>)
    requires
        old(collection).wf(),
    ensures
        final(collection).wf(),
        search_comes_to(k, old(collection)@, vector@, limit, final(collection)@, scored_points_of(r@)),
{
    assert(pass_of(None::<&PayloadFilter>) =~= unfiltered());
    let query = Vector::new(vector);
    let found = collection.search(k, &query, limit, None::<&PayloadFilter>);
    send_scored(&found)
}

/// What a query comes to: it needs a vector.
pub open spec fn query_comes_to<K: Kernels>(
    k: &K,
    before: CollectionV,
    query: Option<Seq<Real>>,
    limit: usize,
    after: CollectionV,
    r: Result<Seq<ScoredPointV>, Refusal>,
) -> bool {
    match query {
        Some(vector) => r is Ok && search_comes_to(k, before, vector, limit, after, r->Ok_0),
        None => after == before && r == Err::<Seq<ScoredPointV>, Refusal>(Refusal::QueryVectorRequired),
    }
}

/// The view of found points, or of a refusal.
pub open spec fn found_or_refusal(r: Result<Vec<ScoredPoint>, Refusal>) -> Result<Seq<ScoredPointV>, Refusal> {
    match r {
        Ok(v) => Ok(scored_points_of(v@)),
        Err(e) => Err(e),
    }
}

/// Searches near the vector of a query.
pub fn query<K: Kernels>(collection: &mut Collection, k: &K, vector: &Option<VectorVariant>, limit: usize) -> (r: Result<
    Vec<ScoredPoint>,
    Refusal,
>)
    requires
        old(collection).wf(),
    ensures
        final(collection).wf(),
        query_comes_to(k, old(collection)@, dense_of(*vector), limit, final(collection)@, found_or_refusal(r)),
{
    match read_dense(vector) {
        Some(data) => Ok(search(collection, k, data, limit)),
        None => Err(Refusal::QueryVectorRequired),
    }
}

/// A search from examples, as a message carries what it finds.
pub open spec fn like_comes_to<K: Kernels>(
    k: &K,
    before: CollectionV,
    liked: Seq<Seq<char>>,
    disliked: Seq<Seq<char>>,
    limit: usize,
    after: CollectionV,
    r: Seq<ScoredPointV>,
) -> bool {
    exists|found: Seq<(PointV, Real)>| #[trigger]
        found_like(k, before, liked, disliked, limit, after, found) && r == sent_scored_all(first(found, limit as nat))
}

/// What a request for recommendations comes to: at least one of the positive examples must be
/// stored.
pub open spec fn recommend_comes_to<K: Kernels>(
    k: &K,
    before: CollectionV,
    liked: Seq<Seq<char>>,
    disliked: Seq<Seq<char>>,
    limit: usize,
    after: CollectionV,
    r: Result<Seq<ScoredPointV>, Refusal>,
) -> bool {
    if example_rows(before.points, liked).len() == 0 {
        after == before && r == Err::<Seq<ScoredPointV>, Refusal>(Refusal::PositiveRequired)
    } else {
        r is Ok && like_comes_to(k, before, liked, disliked, limit, after, r->Ok_0)
    }
}

/// Recommends points like the positive examples and unlike the negative ones.
pub fn recommend<K: Kernels>(
    collection: &mut Collection,
    k: &K,
    positive: &Vec<Option<PointIdOptions>>,
    negative: &Vec<Option<PointIdOptions>>,
    limit: usize,
) -> (r: Result<Vec<ScoredPoint>, Refusal>)
    requires
        old(collection).wf(),
        example_rows(old(collection)@.points, keys_of_ids(ids_of(positive@))).len() > 0 ==> like_span(
            limit,
            keys_of_ids(ids_of(positive@)),
            keys_of_ids(ids_of(negative@)),
        ) <= usize::MAX,
    ensures
        final(collection).wf(),
        recommend_comes_to(
            k,
            old(collection)@,
            keys_of_ids(ids_of(positive@)),
            keys_of_ids(ids_of(negative@)),
            limit,
            final(collection)@,
            found_or_refusal(r),
        ),
{
    let liked = read_ids(positive);
    let disliked = read_ids(negative);
    let ghost before = collection@;
    match search_like(collection, k, &liked, &disliked, limit) {
        Some(found) => {
            let mut kept = found;
            let ghost all = scored_of(kept@);
            if kept.len() > limit {
                let ghost everything = kept@;
                kept.truncate(limit);
                assert(scored_of(kept@) =~= scored_of(everything).take(limit as int));
            }
            assert(scored_of(kept@) =~= first(all, limit as nat));
            let sent = send_scored(&kept);
            assert(like_comes_to(k, before, texts(liked@), texts(disliked@), limit, collection@, scored_points_of(sent@)));
            Ok(sent)
        },
        None => Err(Refusal::PositiveRequired),
    }
}

/// How many points the collection has.
pub fn count(collection: &Collection) -> (r: u64)
    requires
        collection.wf(),
    ensures
        r == collection@.points.len(),
{
    collection.count() as u64
}

// ---------------------------------------------------------------------------------------------
// Scrolling

/// Where a page starts: behind the point that the last one ended with. A key that no point has
/// leaves nothing.
pub open spec fn page_start(points: Seq<PointV>, offset: Option<Seq<char>>) -> int {
    match offset {
        None => 0,
        Some(key) => match place_of(points, key) {
            Some(i) => i + 1,
            None => points.len() as int,
        },
    }
}

/// The points of a page.
pub open spec fn page(points: Seq<PointV>, offset: Option<Seq<char>>, limit: nat) -> Seq<PointV> {
    first(points.skip(page_start(points, offset)), limit)
}

/// Where the next page starts: at the last point of this one, if it is full.
pub open spec fn next_start(page: Seq<PointV>, limit: nat) -> Option<PointIdOptionsV> {
    if page.len() == limit && limit > 0 {
        Some(proto_id(page.last().id))
    } else {
        None
    }
}

/// How many points a page has at most.
pub open spec fn page_limit(limit: Option<u32>) -> nat {
    match limit {
        Some(n) => n as nat,
        None => 10,
    }
}

/// Points in the order in which they are stored, page by page.
pub fn scroll(collection: &Collection, offset: &Option<PointIdOptions>, limit: Option<u32>) -> (r: (
    Vec<RetrievedPoint>,
    Option<PointIdOptions>,
))
    requires
        collection.wf(),
    ensures
        retrieved_of(r.0@) == sent_all(page(collection@.points, key_of_id(id_of(*offset)), page_limit(limit))),
        id_of(r.1) == next_start(
            page(collection@.points, key_of_id(id_of(*offset)), page_limit(limit)),
            page_limit(limit),
        ),
{
    let points = collection.get_all_points();
    let n: usize = points.len();
    let ghost all = points_view(points@);
    let most: usize = match limit {
        Some(n) => n as usize,
        None => 10,
    };
    let start: usize = match parse_point_id(offset) {
        Some(key) => match find_place(&points, key.as_str()) {
            Some(i) => {
                assert(i < n);
                i + 1
            },
            None => n,
        },
        None => 0,
    };
    let ghost from = page_start(all, key_of_id(id_of(*offset)));
    proof {
        lemma_place_of(all, key_of_id(id_of(*offset))->0);
        assert(start == from);
    }
    let mut r: Vec<RetrievedPoint> = Vec::new();
    let mut i: usize = start;
    while i < n && r.len() < most
        invariant
            n == points@.len(),
            start <= i <= n,
            all == points_view(points@),
            r@.len() == i - start,
            r@.len() <= most,
            forall|j: int| 0 <= j < r@.len() ==> (#[trigger] r@[j])@ == sent(all[start + j]),
        decreases n - i,
    {
        r.push(send(&points[i]));
        i += 1;
    }
    let ghost this = page(all, key_of_id(id_of(*offset)), page_limit(limit));
    proof {
        assert(this =~= all.subrange(start as int, i as int));
        assert(retrieved_of(r@) =~= sent_all(this));
    }
    let next: Option<PointIdOptions> = if r.len() == most && most > 0 {
        assert(this.last() == all[i - 1]);
        Some(to_proto_point_id(&points[i - 1].id))
    } else {
        None
    };
    (r, next)
}

/// The next page starts where this one ended: walking the pages visits every point once.
pub proof fn law_pages_continue(points: Seq<PointV>, offset: Option<Seq<char>>, limit: nat)
    requires
        keys_distinct(points),
        limit > 0,
    ensures
        match next_start(page(points, offset, limit), limit) {
            Some(id) => page_start(points, key_of_id(Some(id))) == page_start(points, offset) + limit,
            None => page(points, offset, limit) == points.skip(page_start(points, offset)),
        },
{
    lemma_place_of(points, offset->0);
    let from = page_start(points, offset);
    let rest = points.skip(from);
    let this = page(points, offset, limit);
    if this.len() == limit {
        assert(this.last() == rest[limit - 1]);
        assert(this.last() == points[from + limit - 1]);
        law_proto_id_keeps_key(this.last().id);
        lemma_place_is(points, from + limit - 1);
    }
}

/// Finds where the point with a key stands.
fn find_place(points: &Vec<Point>, key: &str) -> (r: Option<usize>)
    ensures
        place_of(points_view(points@), key@) == match r {
            Some(i) => Some(i as int),
            None => None,
        },
        r matches Some(i) ==> i < points@.len(),
{
    let ghost all = points_view(points@);
    let mut i: usize = points.len();
    assert(all.take(i as int) =~= all);
    while i > 0
        invariant
            i <= points@.len(),
            all == points_view(points@),
            place_of(all, key@) == place_of(all.take(i as int), key@),
        decreases i,
    {
        proof {
            lemma_prefix_grows(all, i - 1);
        }
        i -= 1;
        let this = points[i].id.key();
        if same_text(this.as_str(), key) {
            return Some(i);
        }
    }
    None
}

/// A point that a message stores is read back in a message with its vector and its payload as
/// they came, where JSON can hold the payload. A number leads back to it, and so does a text that
/// is no number written in another way than numbers are.
pub proof fn law_stored_point_comes_back<K: Kernels>(
    k: &K,
    before: CollectionV,
    p: PointStruct,
    point: PointV,
    after: CollectionV,
)
    requires
        keys_distinct(before.points),
        point_kept(k, p, point),
        forall|i: int| 0 <= i < p.payload@.len() ==> json_ready(#[trigger] named_of(p.payload@)[i].1),
        upserts(k, before, point, after),
        read_u64_of(key_of_id(id_of(p.id))->0) matches Some(n) ==> decimal_of(n as nat) == key_of_id(id_of(p.id))->0,
    ensures
        point_under(after.points, key_of_id(id_of(p.id))->0) is Some,
        sent(point_under(after.points, key_of_id(id_of(p.id))->0)->0).payload == named_of(p.payload@),
        sent(point_under(after.points, key_of_id(id_of(p.id))->0)->0).vector == dense_of(p.vectors)->0,
        id_of(p.id) matches Some(PointIdOptionsV::Num(n)) ==> sent(
            point_under(after.points, key_of_id(id_of(p.id))->0)->0,
        ).id == PointIdOptionsV::Num(n),
{
    let key = key_of_id(id_of(p.id))->0;
    law_key_kept(key);
    let stored_point = before.versioned(point);
    law_stored_then_found(before.points, stored_point, key);
    let named = named_of(p.payload@);
    match id_of(p.id) {
        Some(PointIdOptionsV::Num(n)) => {
            law_number_keeps_id(n);
        },
        _ => {},
    }
    if named.len() > 0 {
        let e = point.payload->0->Object_0;
        assert forall|i: int| 0 <= i < named.len() implies proto_fields(e)[i] == named[i] by {
            assert(json_ready(named[i].1));
            assert(becomes_json(k, named[i].1, e[i].1));
            law_value_comes_back(k, named[i].1, e[i].1);
        }
        assert(proto_fields(e) =~= named);
    } else {
        assert(sent_payload(point.payload) =~= named);
    }
}

// ---------------------------------------------------------------------------------------------
// Collections

/// The distances that a message can name.
#[derive(Clone, Copy, Debug, PartialEq, Eq, Structural)]
pub enum ProtoDistance {
    Cosine,
    Euclid,
    Dot,
    Other,
}

/// How a message describes the vectors of a collection.
#[derive(Clone, Copy, Debug, PartialEq, Eq, Structural)]
pub struct VectorParams {
    pub size: usize,
    pub distance: ProtoDistance,
}

/// The vectors of a new collection: of one kind, or of several with names.
pub enum VectorsConfig {
    Params(VectorParams),
    ParamsMap(Vec<(String, VectorParams)>),
}

pub open spec fn core_distance(d: ProtoDistance) -> Distance {
    match d {
        ProtoDistance::Cosine => Distance::Cosine,
        ProtoDistance::Euclid => Distance::Euclidean,
        ProtoDistance::Dot => Distance::Dot,
        ProtoDistance::Other => Distance::Cosine,
    }
}

pub open spec fn named_distance(d: Distance) -> ProtoDistance {
    match d {
        Distance::Cosine => ProtoDistance::Cosine,
        Distance::Euclidean => ProtoDistance::Euclid,
        Distance::Dot => ProtoDistance::Dot,
    }
}

/// A distance that a collection has is named so that it is read as itself.
pub proof fn law_distance_keeps_name(d: Distance)
    ensures
        core_distance(named_distance(d)) == d,
{
}

/// The description that counts: of several with names the first.
pub open spec fn params_of(v: Option<VectorsConfig>) -> Option<VectorParams> {
    match v {
        Some(VectorsConfig::Params(p)) => Some(p),
        Some(VectorsConfig::ParamsMap(list)) => if list@.len() > 0 {
            Some(list@[0].1)
        } else {
            None
        },
        None => None,
    }
}

fn read_distance(d: ProtoDistance) -> (r: Distance)
    ensures
        r == core_distance(d),
{
    match d {
        ProtoDistance::Cosine => Distance::Cosine,
        ProtoDistance::Euclid => Distance::Euclidean,
        ProtoDistance::Dot => Distance::Dot,
        ProtoDistance::Other => Distance::Cosine,
    }
}

pub fn name_distance(d: Distance) -> (r: ProtoDistance)
    ensures
        r == named_distance(d),
{
    match d {
        Distance::Cosine => ProtoDistance::Cosine,
        Distance::Euclidean => ProtoDistance::Euclid,
        Distance::Dot => ProtoDistance::Dot,
    }
}

/// The configuration of a new collection.
pub fn create(name: String, vectors: &Option<VectorsConfig>) -> (r: Result<CollectionConfig, Refusal>)
    ensures
        match (params_of(*vectors), r) {
            (Some(p), Ok(config)) => config@ == (CollectionConfigV {
                name: name@,
                vector_dim: p.size,
                distance: core_distance(p.distance),
                use_hnsw: true,
                enable_bm25: false,
            }),
            (None, Err(e)) => e == Refusal::VectorConfigRequired,
            _ => false,
        },
{
    let params: VectorParams = match vectors {
        Some(VectorsConfig::Params(p)) => *p,
        Some(VectorsConfig::ParamsMap(list)) => {
            if list.len() == 0 {
                return Err(Refusal::VectorConfigRequired);
            }
            list[0].1
        },
        None => {
            return Err(Refusal::VectorConfigRequired);
        },
    };
    Ok(
        CollectionConfig {
            name,
            vector_dim: params.size,
            distance: read_distance(params.distance),
            use_hnsw: true,
            enable_bm25: false,
        },
    )
}

} // verus!
