//! What the parts return that the operations are made of, stated of the parts themselves.

use vstd::prelude::*;
use crate::collection::Collection;
use crate::config::Distance;
use crate::entries::{law_put_leaves_others, law_put_then_lookup, lookup};
use crate::filter::{read_filter, Filter, PayloadFilter};
use crate::filter_laws::{law_search_filter_meaning, meets_each, meets_one, some_readable};
use crate::graph::HnswNodeV;
use crate::hnsw::{last_node, law_insert_adds_point, points_of, scored_of, HnswIndex};
use crate::ieee::Real;
use crate::index_laws::law_inserted_node_linked;
use crate::input::{
    parse_point_from_json, read_points, requested_id, requested_point, requests_of, PointRequest,
};
use crate::input_laws::{law_batch_point, law_numbers_read, law_requested_points};
use crate::json::{Json, JsonV};
use crate::kernel_laws::{law_sparse_product_counts_shared, law_text_search_called, pairs_shared};
use crate::kernels::{matches_of, Kernels};
use crate::point::{
    payload_of, rows_of, MultiVector, MultiVectorError, Point, PointId, PointIdV, PointV,
    SparseVector, Vector,
};
use crate::scoring::{multivector_search, pass_of, sparse_search};
use crate::search_laws::{
    adds_product, law_every_row_counts, law_index_search_finds, law_multivector_search_finds_best,
    law_sparse_search_finds_best, nearest_at, right_max_sim, rightly_compared, sparse_matches,
    sparse_products, top, with_scores,
};
use crate::similarity::{max_sim, sparse_dot};
use crate::store::points_view;
use crate::walk::reachable;

verus! {

// ---------------------------------------------------------------------------------------------
// Searching a list of points

/// A sparse search returns the best of all points that the filter accepts, that have the named sparse
/// vector and whose product with the query is above zero, best first, as many as there are up to the
/// limit.
pub proof fn law_sparse_search<K: Kernels, F: Filter>(
    k: &K,
    points: &Vec<Point>,
    query: &SparseVector,
    name: &str,
    limit: usize,
    filter: Option<&F>,
    r: Vec<(Point, Real)>,
)
    requires
        call_ensures(sparse_search::<K, F>, (k, points, query, name, limit, filter), r),
    ensures
        exists|dots: Seq<Real>| #[trigger]
            sparse_products(k, query@, name@, points_view(points@), pass_of(filter), dots) && top(
                sparse_matches(name@, points_view(points@), pass_of(filter), dots),
                limit as nat,
                scored_of(r@),
            ),
{
    assert(points.len() == points_view(points@).len());
    law_sparse_search_finds_best(k, points_view(points@), query@, name@, limit, pass_of(filter), scored_of(r@));
}

/// A multivector search returns the best of all points that the filter accepts, best first, as many as
/// there are up to the limit.
pub proof fn law_multivector_search<K: Kernels, F: Filter>(
    k: &K,
    distance: Distance,
    points: &Vec<Point>,
    query: &MultiVector,
    limit: usize,
    filter: Option<&F>,
    r: Vec<(Point, Real)>,
)
    requires
        call_ensures(multivector_search::<K, F>, (k, distance, points, query, limit, filter), r),
    ensures
        exists|documents: Seq<Seq<Seq<Real>>>, scores: Seq<Real>| #[trigger]
            rightly_compared(
                k,
                distance,
                query@,
                points_view(points@).filter(pass_of(filter)),
                documents,
                scores,
            ) && top(
                with_scores(points_view(points@).filter(pass_of(filter)), scores),
                limit as nat,
                scored_of(r@),
            ),
{
    assert(points.len() == points_view(points@).len());
    law_multivector_search_finds_best(
        k,
        distance,
        points_view(points@),
        query@,
        limit,
        pass_of(filter),
        scored_of(r@),
    );
}

/// The similarity of two multivectors adds up what every vector of the query scores at best.
pub proof fn law_max_sim<K: Kernels>(k: &K, distance: Distance, query: &MultiVector, document: &MultiVector, r: Real)
    requires
        call_ensures(max_sim::<K>, (k, distance, query, document), r),
    ensures
        right_max_sim(k, distance, query@, document@, r),
{
    law_every_row_counts(k, distance, query@, document@, r);
}

/// The product of two sparse vectors adds up the products of all pairs of entries with one index.
pub proof fn law_sparse_dot<K: Kernels>(k: &K, a: &SparseVector, b: &SparseVector, r: Real)
    requires
        call_ensures(sparse_dot::<K>, (k, a, b), r),
    ensures
        exists|pairs: Seq<(int, int)>, factors: Seq<(Real, Real)>, sums: Seq<Real>|
            {
                &&& #[trigger] pairs_shared(a@, b@, a@.indices.len() as int, pairs, factors)
                &&& #[trigger] sums.len() == factors.len() + 1
                &&& sums[0].bits == 0
                &&& forall|m: int|
                    0 <= m < factors.len() ==> adds_product(
                        k,
                        sums[m],
                        factors[m].0,
                        factors[m].1,
                        #[trigger] sums[m + 1],
                    )
                &&& r == sums[factors.len() as int]
            },
{
    law_sparse_product_counts_shared(k, a@, b@, r);
}

// ---------------------------------------------------------------------------------------------
// The index

/// A search of an index returns the nearest of what it finds, at most as many as asked for; if it
/// returns fewer, none that the links lead to is missing. The index stays as it is.
pub proof fn law_index_search<K: Kernels>(
    index: &mut HnswIndex,
    k: &K,
    query: &Vector,
    count: usize,
    ef: Option<usize>,
    r: Vec<(Point, Real)>,
)
    requires
        old(index).wf(),
        call_ensures(HnswIndex::search::<K>, (index, k, query, count, ef), r),
    ensures
        final(index)@ == old(index)@,
        r@.len() <= count,
        (r@.len() == 0) == (old(index)@.nodes.len() == 0 || count == 0),
        exists|places: Seq<usize>, dists: Seq<Real>|
            {
                &&& #[trigger] nearest_at(k, old(index)@.nodes, query@, places, dists, scored_of(r@))
                &&& old(index)@.nodes.len() > 0 && r@.len() < count ==> forall|node: usize| #[trigger]
                    reachable(old(index)@.nodes, 0, 0, node) ==> places.contains(node)
            },
{
    assert(scored_of(r@).len() == r@.len());
    law_index_search_finds(k, old(index)@.nodes, query@, count, ef, scored_of(r@));
}

/// A point that is inserted on a layer is the last of the index, linked to nodes that were there, at
/// least one and at most as many as allowed; the points that were there stay.
pub proof fn law_index_insert<K: Kernels>(index: &mut HnswIndex, k: &K, point: Point, layer: usize)
    requires
        old(index).wf(),
        call_ensures(HnswIndex::insert_at::<K>, (index, k, point, layer), ()),
    ensures
        points_of(final(index)@.nodes) == points_of(old(index)@.nodes).push(point@),
        0 < old(index)@.nodes.len() && 0 < old(index)@.max_connections < 200 ==> {
            let links = final(index)@.nodes.last().layers;
            &&& links.len() == layer + 1
            &&& 1 <= links[layer as int].len() <= old(index)@.max_connections
            &&& links[layer as int].no_duplicates()
            &&& forall|j: int|
                0 <= j < links[layer as int].len() ==> #[trigger] links[layer as int][j] < old(index)@.nodes.len()
        },
{
    let before = old(index)@.nodes;
    let after = final(index)@.nodes;
    law_insert_adds_point(k, before, point@, layer as nat, old(index)@.max_connections, after);
    if 0 < before.len() && 0 < old(index)@.max_connections < 200 {
        law_inserted_node_linked(k, before, point@, layer as nat, old(index)@.max_connections, after);
    }
}

/// Taking a point out of an index takes out one point stored under its key, the last, and leaves the
/// others in their order; it is said whether there was one.
pub proof fn law_index_remove(index: &mut HnswIndex, id: &str, r: bool)
    requires
        old(index).wf(),
        call_ensures(HnswIndex::remove, (index, id), r),
    ensures
        r == exists|i: int| 0 <= i < old(index)@.nodes.len() && (#[trigger] old(index)@.nodes[i]).point.key() == id@,
        !r ==> final(index)@ == old(index)@,
        r ==> exists|i: int|
            {
                &&& 0 <= i < old(index)@.nodes.len()
                &&& (#[trigger] old(index)@.nodes[i]).point.key() == id@
                &&& final(index)@.nodes == old(index)@.nodes.remove(i)
                &&& forall|j: int|
                    i < j < old(index)@.nodes.len() ==> (#[trigger] old(index)@.nodes[j]).point.key() != id@
            },
{
    lemma_last_node(old(index)@.nodes, id@);
}

proof fn lemma_last_node(nodes: Seq<HnswNodeV>, key: Seq<char>)
    ensures
        match last_node(nodes, key) {
            Some(i) => 0 <= i < nodes.len() && nodes[i].point.key() == key && forall|j: int|
                i < j < nodes.len() ==> (#[trigger] nodes[j]).point.key() != key,
            None => forall|j: int| 0 <= j < nodes.len() ==> (#[trigger] nodes[j]).point.key() != key,
        },
    decreases nodes.len(),
{
    if nodes.len() > 0 && nodes.last().point.key() != key {
        let rest = nodes.drop_last();
        lemma_last_node(rest, key);
        assert forall|j: int| 0 <= j < rest.len() implies #[trigger] nodes[j] == rest[j] by {}
        if last_node(rest, key) is None {
            assert forall|j: int| 0 <= j < nodes.len() implies (#[trigger] nodes[j]).point.key() != key by {
                if j < rest.len() {
                    assert(rest[j].point.key() != key);
                }
            }
        } else {
            let i = last_node(rest, key)->0;
            assert forall|j: int| i < j < nodes.len() implies (#[trigger] nodes[j]).point.key() != key by {
                if j < rest.len() {
                    assert(rest[j].point.key() != key);
                }
            }
        }
    }
}

// ---------------------------------------------------------------------------------------------
// Reading requests

/// The filter of a request that can be read accepts the points whose payload meets every readable
/// condition under `must`, one under `should` if there are any, and none under `must_not`.
pub proof fn law_read_filter(
    filter: &Option<Json>,
    must: Seq<JsonV>,
    should: Seq<JsonV>,
    must_not: Seq<JsonV>,
    r: Option<PayloadFilter>,
    point: PointV,
)
    requires
        call_ensures(read_filter, (filter,), r),
        *filter is Some,
        filter->0@.get_array("must"@) == Some(must) || (filter->0@.get_array("must"@) is None && must.len() == 0),
        filter->0@.get_array("should"@) == Some(should) || (filter->0@.get_array("should"@) is None && should.len() == 0),
        filter->0@.get_array("must_not"@) == Some(must_not) || (filter->0@.get_array("must_not"@) is None
            && must_not.len() == 0),
        some_readable(must) || some_readable(should) || some_readable(must_not),
    ensures
        r is Some,
        point.payload is None ==> !r->0.accepts(point),
        point.payload matches Some(payload) ==> r->0.accepts(point) == {
            &&& meets_each(must, payload)
            &&& some_readable(should) ==> meets_one(should, payload)
            &&& !meets_one(must_not, payload)
        },
{
    if let Some(payload) = point.payload {
        law_search_filter_meaning(filter->0@, must, should, must_not, payload);
    } else {
        law_search_filter_meaning(filter->0@, must, should, must_not, JsonV::Null);
    }
}

/// A point of a batch operation is read exactly if it has an identifier and a vector of numbers, and
/// has these and the payload given.
pub proof fn law_parse_point(value: &Json, r: Option<Point>)
    requires
        call_ensures(parse_point_from_json, (value,), r),
    ensures
        (r is Some) == (value@.get("id"@) is Some && (value@.get("id"@)->0 is Text || value@.get("id"@)->0 is Number)
            && value@.get_array("vector"@) is Some && forall|i: int|
            0 <= i < value@.get_array("vector"@)->0.len() ==> (#[trigger] value@.get_array("vector"@)->0[i]) is Number),
        r matches Some(p) ==> {
            &&& p@.payload == value@.get("payload"@)
            &&& p@.vector.len() == value@.get_array("vector"@)->0.len()
            &&& forall|i: int|
                0 <= i < p@.vector.len() ==> #[trigger] p@.vector[i] == value@.get_array(
                    "vector"@,
                )->0[i]->Number_0.single
            &&& value@.get("id"@)->0 matches JsonV::Text(s) ==> p@.id == PointIdV::String(s)
            &&& value@.get("id"@)->0 matches JsonV::Number(n) ==> (n.natural() matches Some(u) ==> p@.id
                == PointIdV::Integer(u))
        },
{
    law_batch_point(value@);
    if let Some(list) = value@.get_array("vector"@) {
        law_numbers_read(list);
    }
}

/// All points of a request are read, in order, or none if one has no identifier.
pub proof fn law_read_points(reqs: &Vec<PointRequest>, r: Option<Vec<Point>>)
    requires
        call_ensures(read_points, (reqs,), r),
    ensures
        (r is Some) == forall|i: int|
            0 <= i < reqs@.len() ==> requested_id((#[trigger] requests_of(reqs@)[i]).id) is Some,
        r matches Some(points) ==> points@.len() == reqs@.len() && forall|i: int|
            0 <= i < reqs@.len() ==> (#[trigger] points@[i])@ == requested_point(
                requested_id(requests_of(reqs@)[i].id)->0,
                requests_of(reqs@)[i].vector,
                requests_of(reqs@)[i].payload,
            ),
{
    let all = requests_of(reqs@);
    law_requested_points(all, Seq::empty(), arbitrary());
    if let Some(points) = r {
        assert forall|i: int| 0 <= i < reqs@.len() implies (#[trigger] points@[i])@ == requested_point(
            requested_id(all[i].id)->0,
            all[i].vector,
            all[i].payload,
        ) by {
            assert(points_view(points@)[i] == points@[i]@);
        }
    }
}

// ---------------------------------------------------------------------------------------------
// Texts

/// A text search of a collection hands the texts of its index, the query and the limit to the kernels
/// and returns what they find; without a text index nothing is found.
pub proof fn law_search_text<K: Kernels>(c: &Collection, k: &K, query: &str, limit: usize, r: Vec<(String, Real)>)
    requires
        c.wf(),
        call_ensures(Collection::search_text::<K>, (c, k, query, limit), r),
    ensures
        c@.documents is None ==> r@.len() == 0,
        c@.documents matches Some(documents) ==> exists|d: &Vec<(String, String)>, q: &str, m: Vec<(String, Real)>|
         #[trigger]
            call_ensures(K::text_search, (k, d, q, limit), m) && d@.len() == documents.len() && (forall|i: int|
                0 <= i < d@.len() ==> (#[trigger] d@[i]).0@ == documents[i].0 && d@[i].1@ == documents[i].1) && q@
                == query@ && m@.len() == r@.len() && (forall|i: int|
                0 <= i < m@.len() ==> (#[trigger] m@[i]).0@ == r@[i].0@ && m@[i].1 == r@[i].1),
{
    if let Some(documents) = c@.documents {
        law_text_search_called(k, documents, query@, limit, matches_of(r@));
    }
}

// ---------------------------------------------------------------------------------------------
// Points

/// A new point has the identifier, the vector and the payload given, version zero, and nothing else.
pub proof fn law_new_point(id: PointId, vector: Vector, payload: Option<Json>, r: Point)
    requires
        call_ensures(Point::new, (id, vector, payload), r),
    ensures
        r@.id == id@,
        r@.vector == vector@,
        r@.payload == payload_of(payload),
        r@.version == 0,
        r@.multivector is None,
        r@.sparse_vectors.len() == 0,
{
}

/// A new point with a multivector has the first of its rows as its vector.
pub proof fn law_new_multi_point(id: PointId, multivector: MultiVector, payload: Option<Json>, r: Point)
    requires
        call_ensures(Point::new_multi, (id, multivector, payload), r),
    ensures
        r@.id == id@,
        r@.multivector == Some(multivector@),
        r@.vector == multivector@[0],
        r@.payload == payload_of(payload),
        r@.version == 0,
        r@.sparse_vectors.len() == 0,
{
}

/// A sparse vector that is given to a point under a name is what the name leads to, every other name
/// leads where it did, and nothing else changes.
pub proof fn law_add_sparse_vector(point: &mut Point, name: String, vector: SparseVector, other: Seq<char>)
    requires
        call_ensures(Point::add_sparse_vector, (point, name, vector), ()),
    ensures
        lookup(final(point)@.sparse_vectors, other) == if other == name@ {
            Some(vector@)
        } else {
            lookup(old(point)@.sparse_vectors, other)
        },
        final(point)@ == (PointV { sparse_vectors: final(point)@.sparse_vectors, ..old(point)@ }),
{
    law_put_then_lookup(old(point)@.sparse_vectors, name@, vector@);
    if other != name@ {
        law_put_leaves_others(old(point)@.sparse_vectors, name@, vector@, other);
    }
}

/// Rows are taken as a multivector exactly if there are some and all have one length that is not zero.
pub proof fn law_new_multivector(rows: Vec<Vec<Real>>, r: Result<MultiVector, MultiVectorError>)
    requires
        call_ensures(MultiVector::new, (rows,), r),
    ensures
        (r is Ok) == (rows@.len() > 0 && rows@[0]@.len() > 0 && forall|i: int|
            0 <= i < rows@.len() ==> (#[trigger] rows@[i])@.len() == rows@[0]@.len()),
        r matches Ok(m) ==> m@ == rows_of(rows@),
        r is Err ==> (r->Err_0 == MultiVectorError::Empty) == (rows@.len() == 0) && (r->Err_0
            == MultiVectorError::ZeroDimension) == (rows@.len() > 0 && rows@[0]@.len() == 0),
{
    let all = rows_of(rows@);
    assert forall|i: int| 0 <= i < rows@.len() implies (#[trigger] rows@[i])@ == all[i] by {}
    if r is Ok {
        assert forall|i: int| 0 <= i < rows@.len() implies (#[trigger] rows@[i])@.len() == rows@[0]@.len() by {
            assert(all[i].len() == all[0].len());
        }
    } else if rows@.len() > 0 && rows@[0]@.len() > 0 {
        let i = choose|i: int| 0 <= i < all.len() && (#[trigger] all[i]).len() != all[0].len();
        assert(rows@[i]@.len() != rows@[0]@.len());
    }
}

} // verus!
