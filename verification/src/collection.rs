//! A collection: its points, its indexes and what can be done with them.

use vstd::prelude::*;
use crate::config::{CollectionConfig, CollectionConfigV, Distance, PayloadIndexType};
use crate::entries::{lookup, put, remove_named, set_named, value_named, viewed, without};
use crate::filter::Filter;
use crate::graph::HnswNodeV;
use crate::hnsw::{index_gives, inserts, last_node, scored_of, HnswIndex};
use crate::ieee::Real;
use crate::json::{merged, stripped, texts, Json, JsonV};
use crate::kernels::{
    documents_of, gives_normalized, gives_text_search, matches_of, normalize, Kernels,
};
use crate::lists::{lemma_prefix_grows, lemma_turned_rest, turned};
use crate::point::{multivector_of, MultiVector, Point, PointV, SparseVector, Vector};
use crate::scoring::{
    brute_force_gives, brute_force_search, multivector_gives, multivector_search, pass_of,
    passes_filter, scan, scan_gives, sparse_gives, sparse_search,
};
use crate::store::{
    keys_distinct, place_of, point_under, points_view, stored, taken_out, PointStore,
};
use crate::text::copied;

verus! {

/// Why an operation on a collection fails.
#[derive(Debug, Clone, Copy, PartialEq, Eq, Structural)]
pub enum Error {
    /// The vector has another length than the collection asks for.
    InvalidDimension { expected: usize, actual: usize },
}

/// How many links a node of the index has on each layer, at most twice that when others link
/// back.
pub const MAX_CONNECTIONS: usize = 16;

/// How many layers the index has.
pub const MAX_LAYERS: usize = 3;

/// With more points than this the index is rebuilt after a batch.
pub const REBUILD_THRESHOLD: usize = 10_000;

/// With fewer points than this a search goes through all of them.
pub const BRUTE_FORCE_THRESHOLD: usize = 10_000;

/// A collection of vectors with metadata
pub struct Collection {
    config: CollectionConfig,
    points: PointStore,
    hnsw: Option<HnswIndex>,
    documents: Option<Vec<(String, String)>>,
    hnsw_built: bool,
    hnsw_rebuilding: bool,
    batch_mode: bool,
    pending_points: Vec<Point>,
    /// Payload field indexes
    payload_indexes: Vec<(String, PayloadIndexType)>,
    /// Operation counter for tracking write operations
    operation_counter: u64,
}

/// A collection as a mathematical object.
#[verifier::ext_equal]
pub struct CollectionV {
    pub config: CollectionConfigV,
    /// The points, no two with one key.
    pub points: Seq<PointV>,
    /// The nodes of the vector index, if the collection has one.
    pub index: Option<Seq<HnswNodeV>>,
    /// The texts of the text index by key, if the collection has one.
    pub documents: Option<Seq<(Seq<char>, Seq<char>)>>,
    /// Whether the vector index was built.
    pub built: bool,
    /// Whether the vector index is being built anew.
    pub rebuilding: bool,
    pub batch_mode: bool,
    /// What was stored since the batch began.
    pub pending: Seq<PointV>,
    pub payload_indexes: Seq<(Seq<char>, PayloadIndexType)>,
    /// How many operation numbers were given out, modulo 2^64.
    pub operations: u64,
}

/// The field indexes in a list.
pub open spec fn field_indexes_of(v: Seq<(String, PayloadIndexType)>) -> Seq<(Seq<char>, PayloadIndexType)> {
    Seq::new(v.len(), |i: int| (v[i].0@, v[i].1))
}

impl View for Collection {
    type V = CollectionV;

    closed spec fn view(&self) -> CollectionV {
        CollectionV {
            config: self.config@,
            points: self.points@,
            index: match self.hnsw {
                Some(h) => Some(h@.nodes),
                None => None,
            },
            documents: match self.documents {
                Some(d) => Some(documents_of(d@)),
                None => None,
            },
            built: self.hnsw_built,
            rebuilding: self.hnsw_rebuilding,
            batch_mode: self.batch_mode,
            pending: points_view(self.pending_points@),
            payload_indexes: field_indexes_of(self.payload_indexes@),
            operations: self.operation_counter,
        }
    }
}

impl CollectionV {
    /// A collection without points.
    pub open spec fn empty(config: CollectionConfigV) -> CollectionV {
        CollectionV {
            config,
            points: Seq::empty(),
            index: if config.use_hnsw {
                Some(Seq::empty())
            } else {
                None
            },
            documents: if config.enable_bm25 {
                Some(Seq::empty())
            } else {
                None
            },
            built: false,
            rebuilding: false,
            batch_mode: false,
            pending: Seq::empty(),
            payload_indexes: Seq::empty(),
            operations: 0,
        }
    }

    /// The point under a key.
    pub open spec fn point(self, key: Seq<char>) -> Option<PointV> {
        point_under(self.points, key)
    }

    /// The collection after the point under a key was changed.
    pub open spec fn with_point(self, key: Seq<char>, point: PointV) -> CollectionV {
        match place_of(self.points, key) {
            Some(i) => CollectionV { points: self.points.update(i, point), ..self },
            None => self,
        }
    }

    /// Whether the collection takes a vector.
    pub open spec fn takes(self, vector: Seq<Real>) -> bool {
        self.config.vector_dim == 0 || vector.len() == self.config.vector_dim
    }

    /// A point as it is stored: with the version after that of the point it replaces, or 0.
    pub open spec fn versioned(self, point: PointV) -> PointV {
        PointV {
            version: match self.point(point.key()) {
                Some(p) => next_version(p.version),
                None => 0,
            },
            ..point
        }
    }
}

/// Versions count up and start over after the last one.
pub open spec fn next_version(v: u64) -> u64 {
    if v == u64::MAX {
        0
    } else {
        (v + 1) as u64
    }
}

/// The text of a payload that goes into the text index.
pub open spec fn indexed_text(payload: Option<JsonV>) -> Option<Seq<char>> {
    match payload {
        Some(p) => p.get_text("text"@),
        None => None,
    }
}

/// The documents after a point was stored: its text, if it has one, under its key.
pub open spec fn documents_with(
    documents: Option<Seq<(Seq<char>, Seq<char>)>>,
    point: PointV,
) -> Option<Seq<(Seq<char>, Seq<char>)>> {
    match (documents, indexed_text(point.payload)) {
        (Some(d), Some(text)) => Some(put(d, point.key(), text)),
        _ => documents,
    }
}

/// What inserting a point into the index of a collection comes to.
pub open spec fn index_inserts<K: Kernels>(k: &K, before: Seq<HnswNodeV>, point: PointV, after: Seq<HnswNodeV>) -> bool {
    exists|layer: nat| layer < MAX_LAYERS && #[trigger] inserts(k, before, point, layer, MAX_CONNECTIONS, after)
}

/// What storing a point, with its version set, outside a batch does to the index: once it is
/// built, the point is inserted with its vector scaled to length one.
pub open spec fn index_takes<K: Kernels>(
    k: &K,
    before: CollectionV,
    point: PointV,
    after: Option<Seq<HnswNodeV>>,
) -> bool {
    match before.index {
        Some(nodes) => if before.built {
            exists|scaled: Seq<Real>, nodes2: Seq<HnswNodeV>| #[trigger]
                gives_normalized(k, point.vector, scaled) && #[trigger] index_inserts(
                    k,
                    nodes,
                    (PointV { vector: scaled, ..point }),
                    nodes2,
                ) && after == Some(nodes2)
        } else {
            after == before.index
        },
        None => after is None,
    }
}

/// What storing a point comes to, where the collection takes its vector. In a batch it is stored
/// and remembered; otherwise it also goes into the indexes.
pub open spec fn upserts<K: Kernels>(k: &K, before: CollectionV, point: PointV, after: CollectionV) -> bool {
    let p = before.versioned(point);
    if before.batch_mode {
        after == (CollectionV {
            points: stored(before.points, p),
            pending: before.pending.push(p),
            ..before
        })
    } else {
        &&& index_takes(k, before, p, after.index)
        &&& after == (CollectionV {
            points: stored(before.points, p),
            documents: documents_with(before.documents, p),
            index: after.index,
            ..before
        })
    }
}

/// The step from the `i`-th to the next state stores the `i`-th point.
pub open spec fn stores_next<K: Kernels>(k: &K, states: Seq<CollectionV>, points: Seq<PointV>, i: int) -> bool {
    states[i].takes(points[i].vector) && upserts(k, states[i], points[i], states[i + 1])
}

/// `states` are what a collection goes through while points are stored one after the other,
/// until all are stored or a vector is not taken.
pub open spec fn stores_through<K: Kernels>(k: &K, states: Seq<CollectionV>, points: Seq<PointV>) -> bool {
    &&& 1 <= states.len() <= points.len() + 1
    &&& forall|i: int| 0 <= i < states.len() - 1 ==> #[trigger] stores_next(k, states, points, i)
}

/// What storing points one after the other comes to; a vector that is not taken ends it.
pub open spec fn upserts_all<K: Kernels>(
    k: &K,
    before: CollectionV,
    points: Seq<PointV>,
    after: CollectionV,
    r: Result<(), Error>,
) -> bool {
    exists|states: Seq<CollectionV>| #[trigger]
        stores_through(k, states, points) && states[0] == before && states.last() == after && if states.len()
            == points.len() + 1 {
            r is Ok
        } else {
            refuses(after, points[states.len() - 1], r)
        }
}

/// A point whose vector is not taken is refused.
pub open spec fn refuses(c: CollectionV, point: PointV, r: Result<(), Error>) -> bool {
    !c.takes(point.vector) && r == Err::<(), Error>(
        Error::InvalidDimension { expected: c.config.vector_dim, actual: point.vector.len() as usize },
    )
}

/// What storing a point comes to and is answered.
pub open spec fn upsert_answers<K: Kernels>(
    k: &K,
    before: CollectionV,
    point: PointV,
    after: CollectionV,
    r: Result<(), Error>,
) -> bool {
    if before.takes(point.vector) {
        upserts(k, before, point, after) && r is Ok
    } else {
        after == before && refuses(before, point, r)
    }
}

impl Collection {
    pub closed spec fn wf(&self) -> bool {
        &&& self.points.wf()
        &&& (self.hnsw is Some) == self.config.use_hnsw
        &&& self.hnsw matches Some(h) ==> h.wf() && h@.max_connections == MAX_CONNECTIONS && h@.max_layers == MAX_LAYERS
        &&& (self.documents is Some) == self.config.enable_bm25
    }

    /// No two points of a collection have one key, and it has the indexes that it was configured
    /// with.
    pub proof fn law_well_formed(&self)
        requires
            self.wf(),
        ensures
            keys_distinct(self@.points),
            self@.points.len() <= usize::MAX,
            (self@.index is Some) == self@.config.use_hnsw,
            (self@.documents is Some) == self@.config.enable_bm25,
    {
        self.points.law_keys_distinct();
    }

    pub fn new(config: CollectionConfig) -> (r: Collection)
        ensures
            r.wf(),
            r@ == CollectionV::empty(config@),
    {
        let hnsw = if config.use_hnsw {
            Some(HnswIndex::new(MAX_CONNECTIONS, MAX_LAYERS))
        } else {
            None
        };
        let documents: Option<Vec<(String, String)>> = if config.enable_bm25 {
            Some(Vec::new())
        } else {
            None
        };
        let ghost config_v = config@;
        let r = Collection {
            config,
            points: PointStore::new(),
            hnsw,
            documents,
            hnsw_built: false,
            hnsw_rebuilding: false,
            batch_mode: false,
            pending_points: Vec::new(),
            payload_indexes: Vec::new(),
            operation_counter: 0,
        };
        assert(r@ =~= CollectionV::empty(config_v)) by {
            assert(r@.pending =~= Seq::<PointV>::empty());
            assert(r@.payload_indexes =~= Seq::<(Seq<char>, PayloadIndexType)>::empty());
            if config_v.enable_bm25 {
                assert(r@.documents->0 =~= Seq::<(Seq<char>, Seq<char>)>::empty());
            }
        }
        r
    }

    /// Get next operation ID
    pub fn next_operation_id(&mut self) -> (r: u64)
        requires
            old(self).wf(),
        ensures
            final(self).wf(),
            r == old(self)@.operations,
            final(self)@ == (CollectionV { operations: next_version(old(self)@.operations), ..old(self)@ }),
    {
        let r: u64 = self.operation_counter;
        self.operation_counter = if r == u64::MAX {
            0
        } else {
            r + 1
        };
        r
    }

    pub fn name(&self) -> (r: &str)
        ensures
            r@ == self@.config.name,
    {
        self.config.name.as_str()
    }

    pub fn vector_dim(&self) -> (r: usize)
        ensures
            r == self@.config.vector_dim,
    {
        self.config.vector_dim
    }

    pub fn distance(&self) -> (r: Distance)
        ensures
            r == self@.config.distance,
    {
        self.config.distance
    }

    pub fn use_hnsw(&self) -> (r: bool)
        ensures
            r == self@.config.use_hnsw,
    {
        self.config.use_hnsw
    }

    pub fn enable_bm25(&self) -> (r: bool)
        ensures
            r == self@.config.enable_bm25,
    {
        self.config.enable_bm25
    }

    pub fn count(&self) -> (r: usize)
        ensures
            r == self@.points.len(),
    {
        self.points.len()
    }

    pub fn is_empty(&self) -> (r: bool)
        ensures
            r == (self@.points.len() == 0),
    {
        self.points.len() == 0
    }

    /// Get all points in the collection
    pub fn get_all_points(&self) -> (r: Vec<Point>)
        requires
            self.wf(),
        ensures
            points_view(r@) == self@.points,
    {
        let all = self.points.points();
        let mut r: Vec<Point> = Vec::new();
        let mut i: usize = 0;
        while i < all.len()
            invariant
                i <= all@.len(),
                r@.len() == i,
                forall|j: int| 0 <= j < i ==> (#[trigger] r@[j])@ == all@[j]@,
            decreases all@.len() - i,
        {
            r.push(all[i].clone());
            i += 1;
        }
        assert(points_view(r@) =~= points_view(all@));
        r
    }

    /// Get all points
    pub fn iter(&self) -> (r: Vec<Point>)
        requires
            self.wf(),
        ensures
            points_view(r@) == self@.points,
    {
        self.get_all_points()
    }

    /// Get a point by ID
    pub fn get(&self, id: &str) -> (r: Option<Point>)
        requires
            self.wf(),
        ensures
            self@.point(id@) == match r {
                Some(p) => Some(p@),
                None => None,
            },
    {
        match self.points.get(id) {
            Some(p) => Some(p.clone()),
            None => None,
        }
    }

    /// The text of a point goes into the text index, under its key.
    fn index_text(&mut self, point: &Point)
        requires
            old(self).wf(),
        ensures
            final(self).wf(),
            final(self)@ == (CollectionV {
                documents: documents_with(old(self)@.documents, point@),
                ..old(self)@
            }),
    {
        let text = match &point.payload {
            Some(p) => match p.get_text("text") {
                Some(t) => t.clone(),
                None => {
                    return ;
                },
            },
            None => {
                return ;
            },
        };
        let key = point.id.key();
        if let Some(docs) = &mut self.documents {
            let ghost f = |t: String| t@;
            assert(documents_of(docs@) =~= viewed(docs@, f));
            set_named::<String, Seq<char>>(docs, key, text, Ghost(f));
            assert(documents_of(docs@) =~= viewed(docs@, f));
        }
    }

    /// Insert or update a point
    pub fn upsert<K: Kernels>(&mut self, k: &K, point: Point) -> (r: Result<(), Error>)
        requires
            old(self).wf(),
        ensures
            final(self).wf(),
            upsert_answers(k, old(self)@, point@, final(self)@, r),
    {
        let ghost before = self@;
        if self.config.vector_dim > 0 && point.vector.dim() != self.config.vector_dim {
            return Err(
                Error::InvalidDimension { expected: self.config.vector_dim, actual: point.vector.dim() },
            );
        }
        let key = point.id.key();
        let version: u64 = match self.points.get(key.as_str()) {
            Some(p) => if p.version == u64::MAX {
                0
            } else {
                p.version + 1
            },
            None => 0,
        };
        let mut stored_point = point;
        stored_point.version = version;
        let ghost p = before.versioned(point@);
        assert(stored_point@ =~= p);
        if self.batch_mode {
            let copy = stored_point.clone();
            self.points.insert(copy);
            let ghost pending = self.pending_points@;
            self.pending_points.push(stored_point);
            assert(points_view(self.pending_points@) =~= points_view(pending).push(p));
            return Ok(());
        }
        let ghost mut scaled_v: Seq<Real> = Seq::empty();
        let ghost mut grown: Seq<HnswNodeV> = Seq::empty();
        if self.hnsw_built {
            if let Some(index) = &mut self.hnsw {
                let scaled = normalize(k, stored_point.vector.as_slice());
                let mut copy = stored_point.clone();
                let ghost scaled_now = scaled@;
                copy.vector = Vector::new(scaled);
                assert(copy@ =~= (PointV { vector: scaled_now, ..p }));
                let ghost nodes0 = index@.nodes;
                proof {
                    scaled_v = scaled_now;
                    assert(gives_normalized(k, p.vector, scaled_v));
                }
                index.insert(k, copy);
                proof {
                    grown = index@.nodes;
                    assert(index_inserts(k, nodes0, (PointV { vector: scaled_v, ..p }), grown));
                }
            }
        }
        proof {
            if before.built && before.index is Some {
                assert(self@.index == Some(grown));
                assert(index_inserts(k, before.index->0, (PointV { vector: scaled_v, ..p }), grown));
            }
            assert(index_takes(k, before, p, self@.index));
        }
        let ghost mid = self@;
        assert(mid == (CollectionV { index: mid.index, ..before }));
        self.index_text(&stored_point);
        self.points.insert(stored_point);
        assert(self@.index == mid.index);
        Ok(())
    }
}

/// A collection at the beginning of a batch.
pub open spec fn batch_started(c: CollectionV) -> CollectionV {
    CollectionV { batch_mode: true, pending: Seq::empty(), ..c }
}

/// Whether the index is to be rebuilt after a batch: there is one, there are many points, and no
/// rebuild is running.
pub open spec fn rebuild_due(c: CollectionV) -> bool {
    c.index is Some && c.points.len() > REBUILD_THRESHOLD && !c.rebuilding
}

/// A collection at the end of a batch.
pub open spec fn batch_ended(c: CollectionV) -> CollectionV {
    CollectionV { batch_mode: false, pending: Seq::empty(), rebuilding: c.rebuilding || rebuild_due(c), ..c }
}

/// The points that the index is to be rebuilt from, if it is.
pub open spec fn rebuild_from(r: Option<Vec<Point>>) -> Option<Seq<PointV>> {
    match r {
        Some(v) => Some(points_view(v@)),
        None => None,
    }
}

/// What ending a batch answers.
pub open spec fn rebuild_answer(c: CollectionV) -> Option<Seq<PointV>> {
    if rebuild_due(c) {
        Some(c.points)
    } else {
        None
    }
}

/// What storing points as a batch comes to. Where one is refused the batch stays open.
pub open spec fn batch_answers<K: Kernels>(
    k: &K,
    before: CollectionV,
    points: Seq<PointV>,
    after: CollectionV,
    r: Result<Option<Seq<PointV>>, Error>,
) -> bool {
    exists|mid: CollectionV, r0: Result<(), Error>| #[trigger]
        upserts_all(k, batch_started(before), points, mid, r0) && match r0 {
            Ok(_) => after == batch_ended(mid) && r == Ok::<Option<Seq<PointV>>, Error>(rebuild_answer(mid)),
            Err(e) => after == mid && r == Err::<Option<Seq<PointV>>, Error>(e),
        }
}

/// What storing points as a batch, and getting the index ready after it if that is asked for,
/// comes to.
pub open spec fn batch_then_warms<K: Kernels>(
    k: &K,
    before: CollectionV,
    points: Seq<PointV>,
    prewarm: bool,
    after: CollectionV,
    r: Result<Option<Seq<PointV>>, Error>,
) -> bool {
    exists|mid: CollectionV| #[trigger]
        batch_answers(k, before, points, mid, r) && if r is Ok && prewarm {
            warms(k, mid, after)
        } else {
            after == mid
        }
}

/// The view of what a batch answers.
pub open spec fn batch_answer_of(r: Result<Option<Vec<Point>>, Error>) -> Result<Option<Seq<PointV>>, Error> {
    match r {
        Ok(p) => Ok(rebuild_from(p)),
        Err(e) => Err(e),
    }
}

/// The step from the `i`-th to the next state inserts the `i`-th point.
pub open spec fn builds_next<K: Kernels>(k: &K, states: Seq<Seq<HnswNodeV>>, points: Seq<PointV>, i: int) -> bool {
    index_inserts(k, states[i], points[i], states[i + 1])
}

/// `states` are what an index goes through while points are inserted one after the other.
pub open spec fn builds_through<K: Kernels>(k: &K, states: Seq<Seq<HnswNodeV>>, points: Seq<PointV>) -> bool {
    &&& states.len() == points.len() + 1
    &&& states[0].len() == 0
    &&& forall|i: int| 0 <= i < points.len() ==> #[trigger] builds_next(k, states, points, i)
}

/// What building an index from points, one after the other, comes to.
pub open spec fn builds<K: Kernels>(k: &K, points: Seq<PointV>, nodes: Seq<HnswNodeV>) -> bool {
    exists|states: Seq<Seq<HnswNodeV>>| #[trigger] builds_through(k, states, points) && states.last() == nodes
}

/// What getting the index ready comes to: it is built from all points if that was not done yet.
pub open spec fn warms<K: Kernels>(k: &K, before: CollectionV, after: CollectionV) -> bool {
    if before.index is Some && !before.built && before.points.len() > 0 {
        &&& after.index is Some
        &&& builds(k, before.points, after.index->0)
        &&& after == (CollectionV { built: true, index: after.index, ..before })
    } else {
        after == before
    }
}

/// Builds an index from points.
pub fn build_index<K: Kernels>(k: &K, points: &Vec<Point>) -> (r: HnswIndex)
    ensures
        r.wf(),
        r@.max_connections == MAX_CONNECTIONS,
        r@.max_layers == MAX_LAYERS,
        builds(k, points_view(points@), r@.nodes),
{
    let mut r = HnswIndex::new(MAX_CONNECTIONS, MAX_LAYERS);
    let ghost all = points_view(points@);
    let ghost mut states: Seq<Seq<HnswNodeV>> = seq![r@.nodes];
    let mut i: usize = 0;
    while i < points.len()
        invariant
            i <= points@.len(),
            all == points_view(points@),
            r.wf(),
            r@.max_connections == MAX_CONNECTIONS,
            r@.max_layers == MAX_LAYERS,
            states.len() == i + 1,
            states[0].len() == 0,
            states.last() == r@.nodes,
            forall|j: int| 0 <= j < i ==> #[trigger] builds_next(k, states, all, j),
        decreases points@.len() - i,
    {
        let ghost states0 = states;
        r.insert(k, points[i].clone());
        proof {
            states = states.push(r@.nodes);
            assert(index_inserts(k, states0[i as int], all[i as int], r@.nodes));
            assert forall|j: int| 0 <= j < i + 1 implies #[trigger] builds_next(k, states, all, j) by {
                if j < i {
                    assert(builds_next(k, states0, all, j));
                }
            }
        }
        i += 1;
    }
    assert(builds_through(k, states, all));
    r
}

/// The collection after the point under a key was deleted, from the indexes too.
pub open spec fn deleted(c: CollectionV, key: Seq<char>) -> CollectionV {
    CollectionV {
        points: taken_out(c.points, key),
        index: match c.index {
            Some(nodes) => Some(without_node(nodes, key)),
            None => None,
        },
        documents: match c.documents {
            Some(d) => Some(without(d, key)),
            None => None,
        },
        ..c
    }
}

/// The nodes without the last one that holds a key.
pub open spec fn without_node(nodes: Seq<HnswNodeV>, key: Seq<char>) -> Seq<HnswNodeV> {
    match last_node(nodes, key) {
        Some(i) => nodes.remove(i),
        None => nodes,
    }
}

/// The collection after values were set in the payload of a point.
pub open spec fn payload_set(c: CollectionV, key: Seq<char>, payload: JsonV) -> CollectionV {
    match c.point(key) {
        Some(p) => c.with_point(
            key,
            (PointV {
                payload: Some(
                    match p.payload {
                        Some(e) => merged(e, payload),
                        None => payload,
                    },
                ),
                ..p
            }),
        ),
        None => c,
    }
}

/// The collection after a point was given a payload, or none.
pub open spec fn payload_replaced(c: CollectionV, key: Seq<char>, payload: Option<JsonV>) -> CollectionV {
    match c.point(key) {
        Some(p) => c.with_point(key, (PointV { payload, ..p })),
        None => c,
    }
}

/// The collection after members were taken out of the payload of a point.
pub open spec fn payload_stripped(c: CollectionV, key: Seq<char>, keys: Seq<Seq<char>>) -> CollectionV {
    match c.point(key) {
        Some(p) => c.with_point(
            key,
            (PointV {
                payload: match p.payload {
                    Some(e) => Some(stripped(e, keys)),
                    None => None,
                },
                ..p
            }),
        ),
        None => c,
    }
}

/// The collection after a point was given a multivector, or none.
pub open spec fn multivector_set(c: CollectionV, key: Seq<char>, multivector: Option<Seq<Seq<Real>>>) -> CollectionV {
    match c.point(key) {
        Some(p) => c.with_point(key, (PointV { multivector, ..p })),
        None => c,
    }
}

/// What giving a point another vector comes to: the vector is replaced, and in the index the
/// node of the point makes room for a new one, whether the index was built or not.
pub open spec fn vector_updates<K: Kernels>(
    k: &K,
    before: CollectionV,
    key: Seq<char>,
    vector: Seq<Real>,
    after: CollectionV,
) -> bool {
    match before.point(key) {
        Some(p) => {
            let changed = PointV { vector, ..p };
            &&& after == (CollectionV { index: after.index, ..before.with_point(key, changed) })
            &&& match before.index {
                Some(nodes) => after.index is Some && index_inserts(
                    k,
                    without_node(nodes, key),
                    changed,
                    after.index->0,
                ),
                None => after.index is None,
            }
        },
        None => after == before,
    }
}

/// What was found, without what the filter does not let through.
pub open spec fn retained(found: Seq<(PointV, Real)>, pass: spec_fn(PointV) -> bool) -> Seq<(PointV, Real)>
    decreases found.len(),
{
    if found.len() == 0 {
        Seq::empty()
    } else if pass(found.last().0) {
        retained(found.drop_last(), pass).push(found.last())
    } else {
        retained(found.drop_last(), pass)
    }
}

/// What a search comes to. With few points all of them are scored; with many the index is
/// searched, after it was built if need be, and what the filter does not let through is dropped;
/// without an index all points are scored against the query as it is.
pub open spec fn searches<K: Kernels>(
    k: &K,
    before: CollectionV,
    query: Seq<Real>,
    limit: usize,
    pass: spec_fn(PointV) -> bool,
    after: CollectionV,
    r: Seq<(PointV, Real)>,
) -> bool {
    exists|scaled: Seq<Real>| #[trigger]
        gives_normalized(k, query, scaled) && searches_scaled(k, before, query, scaled, limit, pass, after, r)
}

pub open spec fn searches_scaled<K: Kernels>(
    k: &K,
    before: CollectionV,
    query: Seq<Real>,
    scaled: Seq<Real>,
    limit: usize,
    pass: spec_fn(PointV) -> bool,
    after: CollectionV,
    r: Seq<(PointV, Real)>,
) -> bool {
    if before.points.len() < BRUTE_FORCE_THRESHOLD {
        after == before && brute_force_gives(k, before.config.distance, before.points, scaled, limit, pass, r)
    } else if before.index is Some {
        &&& warms(k, before, after)
        &&& exists|found: Seq<(PointV, Real)>| #[trigger]
            index_gives(k, after.index->0, scaled, limit, None, found) && r == retained(found, pass)
    } else {
        after == before && scan_gives(k, before.config.distance, before.points, query, limit, pass, r)
    }
}

impl Collection {
    /// Start batch insert mode
    pub fn start_batch(&mut self)
        requires
            old(self).wf(),
        ensures
            final(self).wf(),
            final(self)@ == batch_started(old(self)@),
    {
        self.batch_mode = true;
        self.pending_points.clear();
        assert(points_view(self.pending_points@) =~= Seq::<PointV>::empty());
    }

    /// End batch insert mode. Where the index is to be rebuilt, the points to rebuild it from
    /// are handed out and the rebuild counts as running until [`Collection::install_index`].
    pub fn end_batch(&mut self) -> (r: Result<Option<Vec<Point>>, Error>)
        requires
            old(self).wf(),
        ensures
            final(self).wf(),
            final(self)@ == batch_ended(old(self)@),
            batch_answer_of(r) == Ok::<Option<Seq<PointV>>, Error>(rebuild_answer(old(self)@)),
    {
        self.batch_mode = false;
        let due = self.hnsw.is_some() && self.points.len() > REBUILD_THRESHOLD && !self.hnsw_rebuilding;
        let job: Option<Vec<Point>> = if due {
            Some(self.get_all_points())
        } else {
            None
        };
        if due {
            self.hnsw_rebuilding = true;
        }
        self.pending_points.clear();
        assert(points_view(self.pending_points@) =~= Seq::<PointV>::empty());
        Ok(job)
    }

    /// Puts an index that was built elsewhere in place; ends the rebuild.
    pub fn install_index(&mut self, index: HnswIndex)
        requires
            old(self).wf(),
            old(self)@.index is Some,
            index.wf(),
            index@.max_connections == MAX_CONNECTIONS,
            index@.max_layers == MAX_LAYERS,
        ensures
            final(self).wf(),
            final(self)@ == (CollectionV {
                index: Some(index@.nodes),
                built: true,
                rebuilding: false,
                ..old(self)@
            }),
    {
        self.hnsw = Some(index);
        self.hnsw_built = true;
        self.hnsw_rebuilding = false;
    }

    /// Stores points one after the other until one is refused.
    fn upsert_each<K: Kernels>(&mut self, k: &K, points: Vec<Point>) -> (r: Result<(), Error>)
        requires
            old(self).wf(),
        ensures
            final(self).wf(),
            upserts_all(k, old(self)@, points_view(points@), final(self)@, r),
    {
        let ghost all = points_view(points@);
        let ghost given = points@;
        let ghost start = self@;
        let ghost mut states: Seq<CollectionV> = seq![start];
        let mut rest = turned(points);
        let ghost mut done: int = 0;
        assert(given.skip(0) =~= given);
        while rest.len() > 0
            invariant
                self.wf(),
                start == old(self)@,
                all == points_view(given),
                given == points@,
                0 <= done <= all.len(),
                rest@ == given.skip(done).reverse(),
                states.len() == done + 1,
                states[0] == start,
                states.last() == self@,
                forall|j: int| 0 <= j < done ==> #[trigger] stores_next(k, states, all, j),
            decreases rest@.len(),
        {
            proof {
                lemma_turned_rest(given, done);
            }
            if let Some(p) = rest.pop() {
                let ghost states0 = states;
                assert(p@ == all[done]);
                match self.upsert(k, p) {
                    Ok(_) => {},
                    Err(e) => {
                        assert(stores_through(k, states, all));
                        return Err(e);
                    },
                }
                proof {
                    states = states.push(self@);
                    assert forall|j: int| 0 <= j < done + 1 implies #[trigger] stores_next(k, states, all, j) by {
                        if j < done {
                            assert(stores_next(k, states0, all, j));
                        }
                    }
                    done = done + 1;
                }
            }
        }
        assert(stores_through(k, states, all));
        Ok(())
    }

    /// Batch insert multiple points
    pub fn batch_upsert<K: Kernels>(&mut self, k: &K, points: Vec<Point>) -> (r: Result<Option<Vec<Point>>, Error>)
        requires
            old(self).wf(),
        ensures
            final(self).wf(),
            batch_answers(k, old(self)@, points_view(points@), final(self)@, batch_answer_of(r)),
    {
        self.start_batch();
        match self.upsert_each(k, points) {
            Ok(_) => self.end_batch(),
            Err(e) => Err(e),
        }
    }

    /// Batch insert with optional pre-warming
    pub fn batch_upsert_with_prewarm<K: Kernels>(&mut self, k: &K, points: Vec<Point>, prewarm: bool) -> (r: Result<
        Option<Vec<Point>>,
        Error,
    >)
        requires
            old(self).wf(),
        ensures
            final(self).wf(),
            batch_then_warms(k, old(self)@, points_view(points@), prewarm, final(self)@, batch_answer_of(r)),
    {
        match self.batch_upsert(k, points) {
            Ok(job) => {
                if prewarm {
                    match self.prewarm_index(k) {
                        Ok(_) => {},
                        Err(e) => {
                            return Err(e);
                        },
                    }
                }
                Ok(job)
            },
            Err(e) => Err(e),
        }
    }

    /// Delete a point by ID
    pub fn delete(&mut self, id: &str) -> (r: Result<bool, Error>)
        requires
            old(self).wf(),
        ensures
            final(self).wf(),
            final(self)@ == deleted(old(self)@, id@),
            r == Ok::<bool, Error>(old(self)@.point(id@) is Some),
    {
        if let Some(index) = &mut self.hnsw {
            index.remove(id);
        }
        if let Some(docs) = &mut self.documents {
            let ghost f = |t: String| t@;
            assert(documents_of(docs@) =~= viewed(docs@, f));
            remove_named::<String, Seq<char>>(docs, id, Ghost(f));
            assert(documents_of(docs@) =~= viewed(docs@, f));
        }
        Ok(self.points.remove(id))
    }

    /// Set payload values for a point (merge with existing)
    pub fn set_payload(&mut self, id: &str, payload: Json) -> (r: Result<bool, Error>)
        requires
            old(self).wf(),
        ensures
            final(self).wf(),
            final(self)@ == payload_set(old(self)@, id@, payload@),
            r == Ok::<bool, Error>(old(self)@.point(id@) is Some),
    {
        match self.points.find(id) {
            Some(at) => {
                let ghost before = self@;
                let merged_payload = match self.points.take_payload(at) {
                    Some(existing) => existing.merge(&payload),
                    None => payload,
                };
                self.points.set_payload(at, Some(merged_payload));
                assert(self@.points =~= payload_set(before, id@, payload@).points);
                Ok(true)
            },
            None => Ok(false),
        }
    }

    /// Overwrite entire payload for a point
    pub fn overwrite_payload(&mut self, id: &str, payload: Json) -> (r: Result<bool, Error>)
        requires
            old(self).wf(),
        ensures
            final(self).wf(),
            final(self)@ == payload_replaced(old(self)@, id@, Some(payload@)),
            r == Ok::<bool, Error>(old(self)@.point(id@) is Some),
    {
        match self.points.find(id) {
            Some(at) => {
                self.points.set_payload(at, Some(payload));
                Ok(true)
            },
            None => Ok(false),
        }
    }

    /// Delete specific payload keys from a point
    pub fn delete_payload_keys(&mut self, id: &str, keys: &[String]) -> (r: Result<bool, Error>)
        requires
            old(self).wf(),
        ensures
            final(self).wf(),
            final(self)@ == payload_stripped(old(self)@, id@, texts(keys@)),
            r == Ok::<bool, Error>(old(self)@.point(id@) is Some),
    {
        match self.points.find(id) {
            Some(at) => {
                let ghost before = self@;
                let left = match self.points.take_payload(at) {
                    Some(existing) => Some(existing.strip(keys)),
                    None => None,
                };
                self.points.set_payload(at, left);
                assert(self@.points =~= payload_stripped(before, id@, texts(keys@)).points);
                Ok(true)
            },
            None => Ok(false),
        }
    }

    /// Clear all payload from a point
    pub fn clear_payload(&mut self, id: &str) -> (r: Result<bool, Error>)
        requires
            old(self).wf(),
        ensures
            final(self).wf(),
            final(self)@ == payload_replaced(old(self)@, id@, None),
            r == Ok::<bool, Error>(old(self)@.point(id@) is Some),
    {
        match self.points.find(id) {
            Some(at) => {
                self.points.set_payload(at, None);
                Ok(true)
            },
            None => Ok(false),
        }
    }

    /// Update vector for a point
    pub fn update_vector<K: Kernels>(&mut self, k: &K, id: &str, vector: Vector) -> (r: Result<bool, Error>)
        requires
            old(self).wf(),
        ensures
            final(self).wf(),
            vector_updates(k, old(self)@, id@, vector@, final(self)@),
            r == Ok::<bool, Error>(old(self)@.point(id@) is Some),
    {
        match self.points.find(id) {
            Some(at) => {
                let ghost before = self@;
                self.points.set_vector(at, vector);
                let ghost changed = self@.points[at as int];
                if let Some(index) = &mut self.hnsw {
                    let point = self.points.at(at).clone();
                    index.remove(id);
                    index.insert(k, point);
                }
                assert(self@.points == before.with_point(id@, changed).points);
                Ok(true)
            },
            None => Ok(false),
        }
    }

    /// Update multivector for a point
    pub fn update_multivector(&mut self, id: &str, multivector: Option<MultiVector>) -> (r: Result<bool, Error>)
        requires
            old(self).wf(),
        ensures
            final(self).wf(),
            final(self)@ == multivector_set(old(self)@, id@, multivector_of(multivector)),
            r == Ok::<bool, Error>(old(self)@.point(id@) is Some),
    {
        match self.points.find(id) {
            Some(at) => {
                self.points.set_multivector(at, multivector);
                Ok(true)
            },
            None => Ok(false),
        }
    }

    /// Delete the vector of a point, which means deleting the point
    pub fn delete_vector(&mut self, id: &str) -> (r: Result<bool, Error>)
        requires
            old(self).wf(),
        ensures
            final(self).wf(),
            final(self)@ == deleted(old(self)@, id@),
            r == Ok::<bool, Error>(old(self)@.point(id@) is Some),
    {
        self.delete(id)
    }

    /// Create a payload field index
    pub fn create_payload_index(&mut self, field_name: &str, index_type: PayloadIndexType) -> (r: Result<bool, Error>)
        requires
            old(self).wf(),
        ensures
            final(self).wf(),
            final(self)@ == (CollectionV {
                payload_indexes: put(old(self)@.payload_indexes, field_name@, index_type),
                ..old(self)@
            }),
            r == Ok::<bool, Error>(true),
    {
        let ghost f = |t: PayloadIndexType| t;
        assert(field_indexes_of(self.payload_indexes@) =~= viewed(self.payload_indexes@, f));
        set_named::<PayloadIndexType, PayloadIndexType>(
            &mut self.payload_indexes,
            copied(field_name),
            index_type,
            Ghost(f),
        );
        assert(field_indexes_of(self.payload_indexes@) =~= viewed(self.payload_indexes@, f));
        Ok(true)
    }

    /// Delete a payload field index
    pub fn delete_payload_index(&mut self, field_name: &str) -> (r: Result<bool, Error>)
        requires
            old(self).wf(),
        ensures
            final(self).wf(),
            final(self)@ == (CollectionV {
                payload_indexes: without(old(self)@.payload_indexes, field_name@),
                ..old(self)@
            }),
            r == Ok::<bool, Error>(lookup(old(self)@.payload_indexes, field_name@) is Some),
    {
        let ghost f = |t: PayloadIndexType| t;
        assert(field_indexes_of(self.payload_indexes@) =~= viewed(self.payload_indexes@, f));
        let r = remove_named::<PayloadIndexType, PayloadIndexType>(
            &mut self.payload_indexes,
            field_name,
            Ghost(f),
        );
        assert(field_indexes_of(self.payload_indexes@) =~= viewed(self.payload_indexes@, f));
        Ok(r)
    }

    /// Get all payload indexes
    pub fn get_payload_indexes(&self) -> (r: Vec<(String, PayloadIndexType)>)
        ensures
            field_indexes_of(r@) == self@.payload_indexes,
    {
        let mut r: Vec<(String, PayloadIndexType)> = Vec::new();
        let mut i: usize = 0;
        while i < self.payload_indexes.len()
            invariant
                i <= self.payload_indexes@.len(),
                r@.len() == i,
                forall|j: int|
                    0 <= j < i ==> (#[trigger] r@[j]).0@ == self.payload_indexes@[j].0@ && r@[j].1
                        == self.payload_indexes@[j].1,
            decreases self.payload_indexes@.len() - i,
        {
            r.push((self.payload_indexes[i].0.clone(), self.payload_indexes[i].1));
            i += 1;
        }
        assert(field_indexes_of(r@) =~= self@.payload_indexes);
        r
    }

    /// Check if a field is indexed
    pub fn is_field_indexed(&self, field_name: &str) -> (r: bool)
        ensures
            r == (lookup(self@.payload_indexes, field_name@) is Some),
    {
        let ghost f = |t: PayloadIndexType| t;
        assert(field_indexes_of(self.payload_indexes@) =~= viewed(self.payload_indexes@, f));
        value_named::<PayloadIndexType, PayloadIndexType>(&self.payload_indexes, field_name, Ghost(f)).is_some()
    }

    /// Pre-warm HNSW index
    pub fn prewarm_index<K: Kernels>(&mut self, k: &K) -> (r: Result<(), Error>)
        requires
            old(self).wf(),
        ensures
            final(self).wf(),
            warms(k, old(self)@, final(self)@),
            r is Ok,
    {
        if self.hnsw.is_some() && !self.hnsw_built && self.points.len() > 0 {
            let index = build_index(k, self.points.points());
            self.hnsw = Some(index);
            self.hnsw_built = true;
        }
        Ok(())
    }

    /// Search for similar vectors
    pub fn search<K: Kernels, F: Filter>(
        &mut self,
        k: &K,
        query: &Vector,
        limit: usize,
        filter: Option<&F>,
    ) -> (r: Vec<(Point, Real)>)
        requires
            old(self).wf(),
        ensures
            final(self).wf(),
            searches(k, old(self)@, query@, limit, pass_of(filter), final(self)@, scored_of(r@)),
    {
        let scaled = Vector::new(normalize(k, query.as_slice()));
        let ghost before = self@;
        if self.points.len() < BRUTE_FORCE_THRESHOLD {
            let r = brute_force_search(
                k,
                self.config.distance,
                self.points.points(),
                scaled.as_slice(),
                limit,
                filter,
            );
            assert(searches_scaled(k, before, query@, scaled@, limit, pass_of(filter), self@, scored_of(r@)));
            return r;
        }
        let _ = self.prewarm_index(k);
        let ghost warm = self@;
        if let Some(index) = &mut self.hnsw {
            let found = index.search(k, &scaled, limit, None);
            let ghost all = scored_of(found@);
            let r = retain(found, filter);
            proof {
                assert(index_gives(k, warm.index->0, scaled@, limit, None, all));
                assert(self@ =~= warm);
                assert(searches_scaled(k, before, query@, scaled@, limit, pass_of(filter), self@, scored_of(r@)));
            }
            return r;
        }
        let r = scan(k, self.config.distance, self.points.points(), query.as_slice(), limit, filter);
        assert(searches_scaled(k, before, query@, scaled@, limit, pass_of(filter), self@, scored_of(r@)));
        r
    }

    /// BM25 text search
    pub fn search_text<K: Kernels>(&self, k: &K, query: &str, limit: usize) -> (r: Vec<(String, Real)>)
        requires
            self.wf(),
        ensures
            match self@.documents {
                Some(d) => gives_text_search(k, d, query@, limit, matches_of(r@)),
                None => r@.len() == 0,
            },
    {
        match &self.documents {
            Some(d) => k.text_search(d, query, limit),
            None => Vec::new(),
        }
    }

    /// Search using multivector MaxSim scoring (ColBERT-style)
    pub fn search_multivector<K: Kernels, F: Filter>(
        &self,
        k: &K,
        query: &MultiVector,
        limit: usize,
        filter: Option<&F>,
    ) -> (r: Vec<(Point, Real)>)
        requires
            self.wf(),
        ensures
            multivector_gives(k, self@.config.distance, self@.points, query@, limit, pass_of(filter), scored_of(r@)),
    {
        multivector_search(k, self.config.distance, self.points.points(), query, limit, filter)
    }

    /// Search using sparse vectors (dot product on matching indices)
    pub fn search_sparse<K: Kernels, F: Filter>(
        &self,
        k: &K,
        query: &SparseVector,
        vector_name: &str,
        limit: usize,
        filter: Option<&F>,
    ) -> (r: Vec<(Point, Real)>)
        requires
            self.wf(),
        ensures
            sparse_gives(k, self@.points, query@, vector_name@, limit, pass_of(filter), scored_of(r@)),
    {
        sparse_search(k, self.points.points(), query, vector_name, limit, filter)
    }
}

/// Keeps of what was found what the filter lets through.
fn retain<F: Filter>(found: Vec<(Point, Real)>, filter: Option<&F>) -> (r: Vec<(Point, Real)>)
    ensures
        scored_of(r@) == retained(scored_of(found@), pass_of(filter)),
{
    let ghost given = found@;
    let ghost all = scored_of(found@);
    let mut rest = turned(found);
    let mut r: Vec<(Point, Real)> = Vec::new();
    let ghost mut done: int = 0;
    proof {
        assert(given.skip(0) =~= given);
        assert(all.take(0) =~= Seq::<(PointV, Real)>::empty());
        assert(scored_of(r@) =~= retained(all.take(0), pass_of(filter)));
    }
    while rest.len() > 0
        invariant
            0 <= done <= all.len(),
            all == scored_of(given),
            rest@ == given.skip(done).reverse(),
            scored_of(r@) == retained(all.take(done), pass_of(filter)),
        decreases rest@.len(),
    {
        proof {
            lemma_turned_rest(given, done);
            lemma_prefix_grows(all, done);
        }
        let ghost r0 = r@;
        if let Some(p) = rest.pop() {
            let ghost pair = (p.0@, p.1);
            assert(pair == all[done]);
            if passes_filter(filter, &p.0) {
                r.push(p);
                assert(scored_of(r@) =~= scored_of(r0).push(pair));
            }
            proof {
                done = done + 1;
            }
        }
    }
    assert(all.take(done) =~= all);
    r
}

} // verus!
