//! Collections, aliases and snapshots in the REST interface, and what the server says of itself.

use vstd::prelude::*;
use crate::api::{joined, ApiError, ApiErrorV};
use crate::collection::Collection;
use crate::config::{CollectionConfig, CollectionConfigV, Distance};
use crate::ieee::Double;
use crate::json::{items, Json, JsonV};
use crate::lists::lemma_prefix_grows;
use crate::text::{
    begins_with, chars_of, copied, decimal, decimal_of, same_text, stands, starts_with, text_of,
};

verus! {

// ---------------------------------------------------------------------------------------------
// The server

/// The REST server.
pub struct RestApi;

/// Name and version of the server.
pub struct ServerInfo {
    pub title: String,
    pub version: String,
}

impl RestApi {
    /// Where the pages of the dashboard are looked for.
    pub fn static_dir() -> (r: String)
        ensures
            r@ == "./static"@,
    {
        copied("./static")
    }

    pub fn root_info() -> (r: ServerInfo)
        ensures
            r.title@ == "vectx - vector search engine"@,
            r.version@ == "0.2.1"@,
    {
        ServerInfo { title: copied("vectx - vector search engine"), version: copied("0.2.1") }
    }

    pub fn health_check() -> (r: ServerInfo)
        ensures
            r.title@ == "vectx"@,
            r.version@ == "0.2.1"@,
    {
        ServerInfo { title: copied("vectx"), version: copied("0.2.1") }
    }
}

/// The sum of several counts.
pub open spec fn total(counts: Seq<u64>) -> int
    decreases counts.len(),
{
    if counts.len() == 0 {
        0
    } else {
        total(counts.drop_last()) + counts.last()
    }
}

proof fn lemma_total_grows(counts: Seq<u64>, i: int)
    requires
        0 <= i <= counts.len(),
    ensures
        0 <= total(counts.take(i)) <= total(counts),
    decreases counts.len() - i,
{
    if i < counts.len() {
        lemma_prefix_grows(counts, i);
        lemma_total_grows(counts, i + 1);
        lemma_total_not_negative(counts.take(i));
    } else {
        assert(counts.take(i) =~= counts);
        lemma_total_not_negative(counts);
    }
}

proof fn lemma_total_not_negative(counts: Seq<u64>)
    ensures
        0 <= total(counts),
    decreases counts.len(),
{
    if counts.len() > 0 {
        lemma_total_not_negative(counts.drop_last());
    }
}

/// The metrics of the server in the text format that collectors read.
pub open spec fn metrics_text(version: Seq<char>, collections: nat, points: nat) -> Seq<char> {
    "# HELP app_info information about vectx server\n# TYPE app_info gauge\napp_info{name=\"vectx\",version=\""@
        + version
        + "\"} 1\n# HELP cluster_enabled is cluster support enabled\n# TYPE cluster_enabled gauge\ncluster_enabled 0\n# HELP collections_total number of collections\n# TYPE collections_total gauge\ncollections_total "@
        + decimal_of(collections)
        + "\n# HELP points_total total number of points across all collections\n# TYPE points_total gauge\npoints_total "@
        + decimal_of(points) + "\n"@
}

/// Prometheus metrics endpoint
pub fn metrics_endpoint(version: &str, collections: usize, counts: &Vec<u64>) -> (r: String)
    requires
        total(counts@) <= u64::MAX,
    ensures
        r@ == metrics_text(version@, collections as nat, total(counts@) as nat),
{
    let mut points: u64 = 0;
    let mut i: usize = 0;
    assert(counts@.take(0) =~= Seq::<u64>::empty());
    while i < counts.len()
        invariant
            i <= counts@.len(),
            total(counts@) <= u64::MAX,
            points == total(counts@.take(i as int)),
        decreases counts@.len() - i,
    {
        proof {
            lemma_prefix_grows(counts@, i as int);
            lemma_total_grows(counts@, i + 1);
        }
        points = points + counts[i];
        i += 1;
    }
    assert(counts@.take(i as int) =~= counts@);
    let head = joined(
        "# HELP app_info information about vectx server\n# TYPE app_info gauge\napp_info{name=\"vectx\",version=\"",
        version,
    );
    let cluster = joined(
        head.as_str(),
        "\"} 1\n# HELP cluster_enabled is cluster support enabled\n# TYPE cluster_enabled gauge\ncluster_enabled 0\n# HELP collections_total number of collections\n# TYPE collections_total gauge\ncollections_total ",
    );
    let number = decimal(collections as u64);
    let counted = joined(cluster.as_str(), number.as_str());
    let named = joined(
        counted.as_str(),
        "\n# HELP points_total total number of points across all collections\n# TYPE points_total gauge\npoints_total ",
    );
    let sum = decimal(points);
    let summed = joined(named.as_str(), sum.as_str());
    joined(summed.as_str(), "\n")
}

// ---------------------------------------------------------------------------------------------
// Collections

/// How a request describes the vectors of a collection.
pub struct VectorConfig {
    pub size: usize,
    pub distance: Option<String>,
}

#[verifier::ext_equal]
pub struct VectorConfigV {
    pub size: usize,
    pub distance: Option<Seq<char>>,
}

impl View for VectorConfig {
    type V = VectorConfigV;

    open spec fn view(&self) -> VectorConfigV {
        VectorConfigV {
            size: self.size,
            distance: match self.distance {
                Some(s) => Some(s@),
                None => None,
            },
        }
    }
}

pub open spec fn config_seen(v: Option<VectorConfig>) -> Option<VectorConfigV> {
    match v {
        Some(c) => Some(c@),
        None => None,
    }
}

/// Which description of vectors counts: what was given read as one description, else the first
/// of what it reads as several with names. Something that reads as neither is refused.
pub fn choose_vectors(given: bool, single: Option<VectorConfig>, named: Vec<VectorConfig>) -> (r: Result<
    Option<VectorConfig>,
    String,
>)
    ensures
        if !given {
            r is Ok && r->Ok_0 is None
        } else {
            match single {
                Some(c) => r is Ok && config_seen(r->Ok_0) == Some(c@),
                None => if named@.len() > 0 {
                    r is Ok && config_seen(r->Ok_0) == Some(named@[0]@)
                } else {
                    r is Err && r->Err_0@
                        == "Invalid vectors configuration: expected either {\"size\": N, \"distance\": \"...\"} or {\"name\": {\"size\": N, ...}}"@
                },
            }
        },
{
    if !given {
        return Ok(None);
    }
    match single {
        Some(c) => Ok(Some(c)),
        None => {
            if named.len() == 0 {
                return Err(
                    copied(
                        "Invalid vectors configuration: expected either {\"size\": N, \"distance\": \"...\"} or {\"name\": {\"size\": N, ...}}",
                    ),
                );
            }
            let distance = match &named[0].distance {
                Some(s) => Some(s.clone()),
                None => None,
            };
            Ok(Some(VectorConfig { size: named[0].size, distance }))
        },
    }
}

/// The distance that a name stands for; what is no name of a distance stands for the cosine.
pub open spec fn distance_named(name: Option<Seq<char>>) -> Distance {
    if name == Some("Euclidean"@) || name == Some("euclidean"@) {
        Distance::Euclidean
    } else if name == Some("Dot"@) || name == Some("dot"@) {
        Distance::Dot
    } else {
        Distance::Cosine
    }
}

fn read_distance(name: &Option<String>) -> (r: Distance)
    ensures
        r == distance_named(
            match *name {
                Some(s) => Some(s@),
                None => None,
            },
        ),
{
    match name {
        Some(s) => {
            if same_text(s.as_str(), "Euclidean") || same_text(s.as_str(), "euclidean") {
                Distance::Euclidean
            } else if same_text(s.as_str(), "Dot") || same_text(s.as_str(), "dot") {
                Distance::Dot
            } else {
                Distance::Cosine
            }
        },
        None => Distance::Cosine,
    }
}

/// A request to create a collection. Of sparse vectors only counts whether there are any.
pub struct CreateCollectionRequest {
    pub vectors: Option<VectorConfig>,
    pub use_hnsw: bool,
    pub enable_bm25: bool,
    pub sparse_vectors: bool,
}

/// The configuration of a new collection. Without dense vectors, which sparse vectors alone can
/// stand in for, there is none.
pub open spec fn new_config(name: Seq<char>, req: CreateCollectionRequest) -> Option<CollectionConfigV> {
    let enable_bm25 = req.enable_bm25 || req.sparse_vectors;
    match req.vectors {
        Some(v) => Some(
            CollectionConfigV {
                name,
                vector_dim: v.size,
                distance: distance_named(v@.distance),
                use_hnsw: req.use_hnsw,
                enable_bm25,
            },
        ),
        None => if req.sparse_vectors {
            Some(
                CollectionConfigV {
                    name,
                    vector_dim: 0,
                    distance: Distance::Cosine,
                    use_hnsw: req.use_hnsw,
                    enable_bm25,
                },
            )
        } else {
            None
        },
    }
}

/// The configuration of a new collection.
pub fn create_collection(name: String, req: &CreateCollectionRequest) -> (r: Result<CollectionConfig, ApiError>)
    ensures
        match (new_config(name@, *req), r) {
            (Some(config), Ok(c)) => c@ == config,
            (None, Err(e)) => e@ == ApiErrorV::VectorsRequired,
            _ => false,
        },
{
    let enable_bm25 = req.enable_bm25 || req.sparse_vectors;
    match &req.vectors {
        Some(v) => Ok(
            CollectionConfig {
                name,
                vector_dim: v.size,
                distance: read_distance(&v.distance),
                use_hnsw: req.use_hnsw,
                enable_bm25,
            },
        ),
        None => {
            if req.sparse_vectors {
                Ok(
                    CollectionConfig {
                        name,
                        vector_dim: 0,
                        distance: Distance::Cosine,
                        use_hnsw: req.use_hnsw,
                        enable_bm25,
                    },
                )
            } else {
                Err(ApiError::VectorsRequired)
            }
        },
    }
}

/// The share of deleted points at which segments are cleaned up, 0.2 in double precision.
pub const DELETED_THRESHOLD_BITS: u64 = 0x3fc9_9999_9999_999a;

/// How the index of every collection is set up.
pub struct HnswConfig {
    pub m: u64,
    pub ef_construct: u64,
    pub full_scan_threshold: u64,
    pub on_disk: bool,
}

/// How the segments of every collection are looked after.
pub struct OptimizerConfig {
    pub deleted_threshold: Double,
    pub vacuum_min_vector_number: u64,
    pub default_segment_number: u64,
    pub indexing_threshold: u64,
    pub flush_interval_sec: u64,
}

/// How the log of every collection is set up.
pub struct WalConfig {
    pub wal_capacity_mb: u64,
    pub wal_segments_ahead: u64,
}

/// What is said of a collection.
pub struct CollectionInfo {
    pub points_count: usize,
    pub vectors_count: usize,
    pub indexed_vectors_count: usize,
    pub segments_count: u64,
    pub vector_dim: usize,
    pub distance: Distance,
    pub shard_number: u64,
    pub replication_factor: u64,
    pub hnsw_config: HnswConfig,
    pub optimizer_config: OptimizerConfig,
    pub wal_config: WalConfig,
}

/// From how many points on a collection is indexed, as the REST interface has it.
pub const REST_INDEXING_THRESHOLD: u64 = 10000;

/// From how many points on a collection is indexed, as the gRPC interface has it.
pub const GRPC_INDEXING_THRESHOLD: u64 = 20000;

/// What is said of a collection: every point counts as a vector and as indexed, and the rest is
/// the same for all.
pub fn get_collection(collection: &Collection, indexing_threshold: u64) -> (r: CollectionInfo)
    requires
        collection.wf(),
    ensures
        r.points_count == collection@.points.len(),
        r.vectors_count == r.points_count,
        r.indexed_vectors_count == r.points_count,
        r.segments_count == 1,
        r.vector_dim == collection@.config.vector_dim,
        r.distance == collection@.config.distance,
        r.shard_number == 1,
        r.replication_factor == 1,
        r.hnsw_config == (HnswConfig { m: 16, ef_construct: 100, full_scan_threshold: 10000, on_disk: false }),
        r.optimizer_config == (OptimizerConfig {
            deleted_threshold: Double { bits: DELETED_THRESHOLD_BITS },
            vacuum_min_vector_number: 1000,
            default_segment_number: 0,
            indexing_threshold,
            flush_interval_sec: 5,
        }),
        r.wal_config == (WalConfig { wal_capacity_mb: 32, wal_segments_ahead: 0 }),
{
    let points_count: usize = collection.count();
    CollectionInfo {
        points_count,
        vectors_count: points_count,
        indexed_vectors_count: points_count,
        segments_count: 1,
        vector_dim: collection.vector_dim(),
        distance: collection.distance(),
        shard_number: 1,
        replication_factor: 1,
        hnsw_config: HnswConfig { m: 16, ef_construct: 100, full_scan_threshold: 10000, on_disk: false },
        optimizer_config: OptimizerConfig {
            deleted_threshold: Double { bits: DELETED_THRESHOLD_BITS },
            vacuum_min_vector_number: 1000,
            default_segment_number: 0,
            indexing_threshold,
            flush_interval_sec: 5,
        },
        wal_config: WalConfig { wal_capacity_mb: 32, wal_segments_ahead: 0 },
    }
}

// ---------------------------------------------------------------------------------------------
// Aliases

/// A change of the aliases of collections.
pub enum AliasAction {
    Create { alias: String, collection: String },
    Delete { alias: String },
    Rename { from: String, to: String },
}

#[verifier::ext_equal]
pub enum AliasActionV {
    Create { alias: Seq<char>, collection: Seq<char> },
    Delete { alias: Seq<char> },
    Rename { from: Seq<char>, to: Seq<char> },
}

impl View for AliasAction {
    type V = AliasActionV;

    open spec fn view(&self) -> AliasActionV {
        match *self {
            AliasAction::Create { alias, collection } => AliasActionV::Create {
                alias: alias@,
                collection: collection@,
            },
            AliasAction::Delete { alias } => AliasActionV::Delete { alias: alias@ },
            AliasAction::Rename { from, to } => AliasActionV::Rename { from: from@, to: to@ },
        }
    }
}

pub open spec fn actions_of(v: Seq<AliasAction>) -> Seq<AliasActionV> {
    Seq::new(v.len(), |i: int| v[i]@)
}

/// Two texts that an object has under two names inside a member of it.
pub open spec fn two_texts(action: JsonV, name: Seq<char>, a: Seq<char>, b: Seq<char>) -> Option<(Seq<char>, Seq<char>)> {
    match action.get_object(name) {
        Some(o) => match (o.get_text(a), o.get_text(b)) {
            (Some(x), Some(y)) => Some((x, y)),
            _ => None,
        },
        None => None,
    }
}

/// A list with one more, if there is one more.
pub open spec fn and_maybe<T>(s: Seq<T>, more: Option<T>) -> Seq<T> {
    match more {
        Some(x) => s.push(x),
        None => s,
    }
}

/// The alias that an action creates.
pub open spec fn created_alias(action: JsonV) -> Option<AliasActionV> {
    match two_texts(action, "create_alias"@, "alias_name"@, "collection_name"@) {
        Some((alias, collection)) => Some(AliasActionV::Create { alias, collection }),
        None => None,
    }
}

/// The alias that an action deletes.
pub open spec fn deleted_alias(action: JsonV) -> Option<AliasActionV> {
    match action.get_object("delete_alias"@) {
        Some(o) => match o.get_text("alias_name"@) {
            Some(alias) => Some(AliasActionV::Delete { alias }),
            None => None,
        },
        None => None,
    }
}

/// The alias that an action renames.
pub open spec fn renamed_alias(action: JsonV) -> Option<AliasActionV> {
    match two_texts(action, "rename_alias"@, "old_alias_name"@, "new_alias_name"@) {
        Some((from, to)) => Some(AliasActionV::Rename { from, to }),
        None => None,
    }
}

/// What the actions of a request do, in order; one can create, delete and rename in turn, and
/// what lacks a text that it needs does nothing.
pub open spec fn alias_actions(actions: Seq<JsonV>) -> Seq<AliasActionV>
    decreases actions.len(),
{
    if actions.len() == 0 {
        Seq::empty()
    } else {
        let last = actions.last();
        and_maybe(
            and_maybe(and_maybe(alias_actions(actions.drop_last()), created_alias(last)), deleted_alias(last)),
            renamed_alias(last),
        )
    }
}

fn read_two_texts<'a>(action: &'a Json, name: &str, a: &str, b: &str) -> (r: Option<(&'a String, &'a String)>)
    ensures
        two_texts(action@, name@, a@, b@) == match r {
            Some((x, y)) => Some((x@, y@)),
            None => None,
        },
{
    match action.get_object(name) {
        Some(o) => match (o.get_text(a), o.get_text(b)) {
            (Some(x), Some(y)) => Some((x, y)),
            _ => None,
        },
        None => None,
    }
}

fn read_deleted_alias<'a>(action: &'a Json) -> (r: Option<&'a String>)
    ensures
        deleted_alias(action@) == match r {
            Some(alias) => Some(AliasActionV::Delete { alias: alias@ }),
            None => None,
        },
{
    match action.get_object("delete_alias") {
        Some(o) => o.get_text("alias_name"),
        None => None,
    }
}

fn note_action(r: &mut Vec<AliasAction>, action: AliasAction)
    ensures
        actions_of(final(r)@) == actions_of(old(r)@).push(action@),
{
    let ghost action_v = action@;
    let ghost r0 = r@;
    r.push(action);
    assert(actions_of(r@) =~= actions_of(r0).push(action_v));
}

/// Reads what the actions of a request do.
pub fn update_aliases(actions: &Vec<Json>) -> (r: Vec<AliasAction>)
    ensures
        actions_of(r@) == alias_actions(items(actions@)),
{
    let ghost all = items(actions@);
    let mut r: Vec<AliasAction> = Vec::new();
    let mut i: usize = 0;
    assert(actions_of(r@) =~= alias_actions(all.take(0)));
    while i < actions.len()
        invariant
            i <= actions@.len(),
            all == items(actions@),
            actions_of(r@) == alias_actions(all.take(i as int)),
        decreases actions@.len() - i,
    {
        proof {
            lemma_prefix_grows(all, i as int);
        }
        let action = &actions[i];
        if let Some((alias, collection)) = read_two_texts(action, "create_alias", "alias_name", "collection_name") {
            note_action(&mut r, AliasAction::Create { alias: alias.clone(), collection: collection.clone() });
        }
        if let Some(alias) = read_deleted_alias(action) {
            note_action(&mut r, AliasAction::Delete { alias: alias.clone() });
        }
        if let Some((from, to)) = read_two_texts(action, "rename_alias", "old_alias_name", "new_alias_name") {
            note_action(&mut r, AliasAction::Rename { from: from.clone(), to: to.clone() });
        }
        i += 1;
    }
    assert(all.take(i as int) =~= all);
    r
}

// ---------------------------------------------------------------------------------------------
// Snapshots

/// Where a snapshot is recovered from.
pub enum SnapshotLocation {
    Url(String),
    Name(String),
}

#[verifier::ext_equal]
pub enum SnapshotLocationV {
    Url(Seq<char>),
    Name(Seq<char>),
}

impl View for SnapshotLocation {
    type V = SnapshotLocationV;

    open spec fn view(&self) -> SnapshotLocationV {
        match *self {
            SnapshotLocation::Url(s) => SnapshotLocationV::Url(s@),
            SnapshotLocation::Name(s) => SnapshotLocationV::Name(s@),
        }
    }
}

/// What is left of a text behind a prefix, which may stand there several times.
pub open spec fn behind_prefixes(s: Seq<char>, prefix: Seq<char>) -> Seq<char>
    decreases s.len(),
{
    if prefix.len() > 0 && starts_with(s, prefix) {
        behind_prefixes(s.skip(prefix.len() as int), prefix)
    } else {
        s
    }
}

/// What stands behind the last separator of a text.
pub open spec fn last_part(s: Seq<char>, separator: char) -> Seq<char>
    decreases s.len(),
{
    if s.len() == 0 || s.last() == separator {
        Seq::empty()
    } else {
        last_part(s.drop_last(), separator).push(s.last())
    }
}

/// Where a location says that a snapshot is: at a URL; in a file, of which the name counts; or
/// under a name.
pub open spec fn located(location: Seq<char>) -> SnapshotLocationV {
    if starts_with(location, "http://"@) || starts_with(location, "https://"@) {
        SnapshotLocationV::Url(location)
    } else if starts_with(location, "file://"@) {
        SnapshotLocationV::Name(last_part(behind_prefixes(location, "file://"@), '/'))
    } else {
        SnapshotLocationV::Name(location)
    }
}

proof fn lemma_last_part(s: Seq<char>, separator: char, i: int)
    requires
        0 <= i <= s.len(),
        i == 0 || s[i - 1] == separator,
        forall|j: int| i <= j < s.len() ==> (#[trigger] s[j]) != separator,
    ensures
        last_part(s, separator) == s.skip(i),
    decreases s.len(),
{
    if s.len() > i {
        assert(s.last() == s[s.len() - 1]);
        let shorter = s.drop_last();
        assert forall|j: int| i <= j < shorter.len() implies (#[trigger] shorter[j]) != separator by {
            assert(shorter[j] == s[j]);
        }
        lemma_last_part(shorter, separator, i);
        assert(s.skip(i) =~= shorter.skip(i).push(s.last()));
    } else {
        assert(s.skip(i) =~= Seq::<char>::empty());
        if s.len() > 0 {
            assert(s.last() == s[i - 1]);
        }
    }
}

fn file_name(location: &str) -> (r: String)
    ensures
        r@ == last_part(behind_prefixes(location@, "file://"@), '/'),
{
    let chars = chars_of(location);
    let prefix = chars_of("file://");
    proof {
        reveal_strlit("file://");
    }
    let ghost p = "file://"@;
    let n: usize = chars.len();
    let mut from: usize = 0;
    assert(location@.skip(0) =~= location@);
    while stands(&chars, &prefix, from)
        invariant
            n == chars@.len(),
            chars@ == location@,
            prefix@ == p,
            p.len() == 7,
            from <= chars@.len(),
            behind_prefixes(location@, p) == behind_prefixes(location@.skip(from as int), p),
        decreases chars@.len() - from,
    {
        proof {
            let here = location@.skip(from as int);
            assert(here.subrange(0, 7) =~= location@.subrange(from as int, from + 7));
            assert(here.skip(7) =~= location@.skip(from + 7));
        }
        from = from + 7;
    }
    let ghost rest = location@.skip(from as int);
    proof {
        if starts_with(rest, p) {
            assert(rest.subrange(0, 7) =~= location@.subrange(from as int, from + 7));
        }
        assert(behind_prefixes(location@, p) == rest);
    }
    let mut i: usize = n;
    while i > from && chars[i - 1] != '/'
        invariant
            chars@ == location@,
            from <= i <= chars@.len(),
            forall|j: int| i <= j < chars@.len() ==> (#[trigger] chars@[j]) != '/',
        decreases i,
    {
        i -= 1;
    }
    proof {
        let at = i - from;
        assert forall|j: int| at <= j < rest.len() implies (#[trigger] rest[j]) != '/' by {
            assert(rest[j] == chars@[from + j]);
        }
        if at > 0 {
            assert(rest[at - 1] == chars@[i - 1]);
        }
        lemma_last_part(rest, '/', at);
        assert(rest.skip(at) =~= location@.subrange(i as int, location@.len() as int));
    }
    text_of(&chars, i, n)
}

/// Reads where a snapshot is recovered from.
pub fn snapshot_location(location: &str) -> (r: SnapshotLocation)
    ensures
        r@ == located(location@),
{
    if begins_with(location, "http://") || begins_with(location, "https://") {
        SnapshotLocation::Url(copied(location))
    } else if begins_with(location, "file://") {
        SnapshotLocation::Name(file_name(location))
    } else {
        SnapshotLocation::Name(copied(location))
    }
}

/// What is said of a recovered collection.
pub struct Recovery {
    pub collection: String,
    pub vector_dim: usize,
    pub points_count: usize,
    pub note: Option<String>,
}

/// What is said of a recovered collection; one without points comes with a note.
pub fn build_recovery_result(collection: &Collection) -> (r: Recovery)
    requires
        collection.wf(),
    ensures
        r.collection@ == collection@.config.name,
        r.vector_dim == collection@.config.vector_dim,
        r.points_count == collection@.points.len(),
        match r.note {
            Some(note) => collection@.points.len() == 0 && note@
                == "Collection created with config only. If this was a Qdrant snapshot, points must be migrated separately using the scroll API."@,
            None => collection@.points.len() > 0,
        },
{
    let points_count: usize = collection.count();
    let note: Option<String> = if points_count == 0 {
        Some(
            copied(
                "Collection created with config only. If this was a Qdrant snapshot, points must be migrated separately using the scroll API.",
            ),
        )
    } else {
        None
    };
    Recovery { collection: copied(collection.name()), vector_dim: collection.vector_dim(), points_count, note }
}

/// A snapshot that comes in the parts of a form.
pub struct Upload {
    pub data: Option<Vec<u8>>,
    pub filename: Option<String>,
}

impl Upload {
    pub fn new() -> (r: Upload)
        ensures
            r.data is None,
            r.filename is None,
    {
        Upload { data: None, filename: None }
    }

    /// Whether a part of the form is the snapshot.
    pub fn wants(name: &str) -> (r: bool)
        ensures
            r == (name@ == "snapshot"@),
    {
        same_text(name, "snapshot")
    }

    /// Takes a part of the form; of several snapshots the last one counts.
    pub fn part(&mut self, name: &str, filename: Option<String>, data: Vec<u8>)
        ensures
            *final(self) == if name@ == "snapshot"@ {
                Upload { data: Some(data), filename }
            } else {
                *old(self)
            },
    {
        if Upload::wants(name) {
            self.data = Some(data);
            self.filename = filename;
        }
    }
}

} // verus!
