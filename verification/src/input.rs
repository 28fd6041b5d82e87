//! Reading vectors and points out of JSON.

use vstd::prelude::*;
use crate::api::{key_of_json, ApiError, ApiErrorV};
use crate::entries::put;
use crate::ieee::Real;
use crate::json::{fields, items, lemma_array, lemma_object, Json, JsonV};
use crate::kernels::zero;
use crate::lists::lemma_prefix_grows;
use crate::point::{
    copy_payload, copy_reals, copy_rows, is_multivector, payload_of, plain_point, rows_of,
    MultiVector, Point, PointId, PointIdV, PointV, SparseVector, SparseVectorV, Vector,
};
use crate::store::points_view;
use crate::text::copied;

verus! {

// ---------------------------------------------------------------------------------------------
// Numbers

/// The numbers in a list, if it holds nothing else.
pub open spec fn numbers(list: Seq<JsonV>) -> Option<Seq<Real>> {
    if forall|i: int| 0 <= i < list.len() ==> (#[trigger] list[i]) is Number {
        Some(Seq::new(list.len(), |i: int| list[i]->Number_0.single))
    } else {
        None
    }
}

/// Reads a vector: a list of numbers.
pub fn parse_numbers(list: &Vec<Json>) -> (r: Option<Vec<Real>>)
    ensures
        numbers(items(list@)) == match r {
            Some(v) => Some(v@),
            None => None,
        },
{
    let mut r: Vec<Real> = Vec::new();
    let ghost all = items(list@);
    let mut i: usize = 0;
    while i < list.len()
        invariant
            i <= list@.len(),
            all == items(list@),
            r@.len() == i,
            forall|j: int| 0 <= j < i ==> (#[trigger] all[j]) is Number && r@[j] == all[j]->Number_0.single,
        decreases list@.len() - i,
    {
        assert(all[i as int] == list@[i as int]@);
        match list[i].as_number() {
            Some(n) => {
                r.push(n.single);
            },
            None => {
                assert(!(all[i as int] is Number));
                return None;
            },
        }
        i += 1;
    }
    assert(r@ =~= Seq::new(all.len(), |j: int| all[j]->Number_0.single));
    Some(r)
}

/// The numbers among the members of a list.
pub open spec fn numbers_among(list: Seq<JsonV>) -> Seq<Real>
    decreases list.len(),
{
    if list.len() == 0 {
        Seq::empty()
    } else {
        match list.last() {
            JsonV::Number(n) => numbers_among(list.drop_last()).push(n.single),
            _ => numbers_among(list.drop_last()),
        }
    }
}

/// The unsigned integers among the members of a list, modulo 2^32.
pub open spec fn indices_among(list: Seq<JsonV>) -> Seq<u32>
    decreases list.len(),
{
    if list.len() == 0 {
        Seq::empty()
    } else {
        match list.last() {
            JsonV::Number(n) => match n.natural() {
                Some(u) => indices_among(list.drop_last()).push((u % 0x1_0000_0000) as u32),
                None => indices_among(list.drop_last()),
            },
            _ => indices_among(list.drop_last()),
        }
    }
}

pub fn collect_numbers(list: &Vec<Json>) -> (r: Vec<Real>)
    ensures
        r@ == numbers_among(items(list@)),
{
    let mut r: Vec<Real> = Vec::new();
    let ghost all = items(list@);
    let mut i: usize = 0;
    assert(r@ =~= numbers_among(all.take(0)));
    while i < list.len()
        invariant
            i <= list@.len(),
            all == items(list@),
            r@ == numbers_among(all.take(i as int)),
        decreases list@.len() - i,
    {
        proof {
            lemma_prefix_grows(all, i as int);
        }
        if let Some(n) = list[i].as_number() {
            r.push(n.single);
        }
        i += 1;
    }
    assert(all.take(i as int) =~= all);
    r
}

pub fn collect_indices(list: &Vec<Json>) -> (r: Vec<u32>)
    ensures
        r@ == indices_among(items(list@)),
{
    let mut r: Vec<u32> = Vec::new();
    let ghost all = items(list@);
    let mut i: usize = 0;
    assert(r@ =~= indices_among(all.take(0)));
    while i < list.len()
        invariant
            i <= list@.len(),
            all == items(list@),
            r@ == indices_among(all.take(i as int)),
        decreases list@.len() - i,
    {
        proof {
            lemma_prefix_grows(all, i as int);
        }
        if let Some(n) = list[i].as_number() {
            if let Some(u) = n.as_u64() {
                r.push((u % 0x1_0000_0000) as u32);
            }
        }
        i += 1;
    }
    assert(all.take(i as int) =~= all);
    r
}

// ---------------------------------------------------------------------------------------------
// Vectors

/// The rows of a list of lists of numbers. Refused is what the first row that is not one is
/// refused for.
pub open spec fn rows_in(list: Seq<JsonV>) -> Result<Seq<Seq<Real>>, ApiErrorV>
    decreases list.len(),
{
    if list.len() == 0 {
        Ok(Seq::empty())
    } else {
        match rows_in(list.drop_last()) {
            Err(e) => Err(e),
            Ok(rows) => match list.last() {
                JsonV::Array(row) => match numbers(row) {
                    Some(v) => Ok(rows.push(v)),
                    None => Err(ApiErrorV::ExpectedNumber),
                },
                _ => Err(ApiErrorV::ExpectedArrays),
            },
        }
    }
}

proof fn lemma_rows_refused(list: Seq<JsonV>, i: int)
    requires
        0 <= i <= list.len(),
        rows_in(list.take(i)) is Err,
    ensures
        rows_in(list) == rows_in(list.take(i)),
    decreases list.len() - i,
{
    if i < list.len() {
        lemma_prefix_grows(list, i);
        lemma_rows_refused(list, i + 1);
    } else {
        assert(list.take(i) =~= list);
    }
}

pub proof fn lemma_rows_len(list: Seq<JsonV>)
    ensures
        rows_in(list) matches Ok(rows) ==> rows.len() == list.len(),
    decreases list.len(),
{
    if list.len() > 0 {
        lemma_rows_len(list.drop_last());
    }
}

/// The view of rows, or of what they are refused for.
pub open spec fn rows_answer(r: Result<Vec<Vec<Real>>, ApiError>) -> Result<Seq<Seq<Real>>, ApiErrorV> {
    match r {
        Ok(v) => Ok(rows_of(v@)),
        Err(e) => Err(e@),
    }
}

pub fn parse_rows(list: &Vec<Json>) -> (r: Result<Vec<Vec<Real>>, ApiError>)
    ensures
        rows_answer(r) == rows_in(items(list@)),
{
    let mut r: Vec<Vec<Real>> = Vec::new();
    let ghost all = items(list@);
    let mut i: usize = 0;
    assert(rows_of(r@) =~= Seq::<Seq<Real>>::empty());
    while i < list.len()
        invariant
            i <= list@.len(),
            all == items(list@),
            rows_in(all.take(i as int)) == Ok::<Seq<Seq<Real>>, ApiErrorV>(rows_of(r@)),
        decreases list@.len() - i,
    {
        proof {
            lemma_prefix_grows(all, i as int);
        }
        match list[i].as_array() {
            Some(row) => match parse_numbers(row) {
                Some(v) => {
                    let ghost r0 = r@;
                    let ghost here = v@;
                    r.push(v);
                    assert(rows_of(r@) =~= rows_of(r0).push(here));
                },
                None => {
                    proof {
                        lemma_rows_refused(all, i + 1);
                    }
                    return Err(ApiError::ExpectedNumber);
                },
            },
            None => {
                proof {
                    lemma_rows_refused(all, i + 1);
                }
                return Err(ApiError::ExpectedArrays);
            },
        }
        i += 1;
    }
    assert(all.take(i as int) =~= all);
    Ok(r)
}

/// Parsed sparse vector data
pub struct ParsedSparseVector {
    /// Name of the sparse vector (e.g., "keywords")
    pub name: String,
    /// Indices of non-zero elements
    pub indices: Vec<u32>,
    /// Values at those indices
    pub values: Vec<Real>,
}

/// Parsed vector data - can be single, multi, or sparse
pub struct ParsedVector {
    /// First/primary vector
    pub primary: Vec<Real>,
    /// Full multivector data if this was a multivector input
    pub multivector: Option<Vec<Vec<Real>>>,
    /// Sparse vectors (named)
    pub sparse_vectors: Vec<ParsedSparseVector>,
}

#[verifier::ext_equal]
pub struct ParsedVectorV {
    pub primary: Seq<Real>,
    pub multivector: Option<Seq<Seq<Real>>>,
    pub sparse_vectors: Seq<(Seq<char>, SparseVectorV)>,
}

pub open spec fn parsed_sparse_of(v: Seq<ParsedSparseVector>) -> Seq<(Seq<char>, SparseVectorV)> {
    Seq::new(
        v.len(),
        |i: int| (v[i].name@, SparseVectorV { indices: v[i].indices@, values: v[i].values@ }),
    )
}

pub open spec fn some_rows(m: Option<Vec<Vec<Real>>>) -> Option<Seq<Seq<Real>>> {
    match m {
        Some(v) => Some(rows_of(v@)),
        None => None,
    }
}

impl View for ParsedVector {
    type V = ParsedVectorV;

    open spec fn view(&self) -> ParsedVectorV {
        ParsedVectorV {
            primary: self.primary@,
            multivector: some_rows(self.multivector),
            sparse_vectors: parsed_sparse_of(self.sparse_vectors@),
        }
    }
}

/// A vector and nothing else.
pub open spec fn just(primary: Seq<Real>) -> ParsedVectorV {
    ParsedVectorV { primary, multivector: None, sparse_vectors: Seq::empty() }
}

/// A sparse vector under a name: an object with the arrays `indices` and `values`, both with
/// something in them that is one.
pub open spec fn sparse_in(value: JsonV) -> Option<SparseVectorV> {
    match (value.get_array("indices"@), value.get_array("values"@)) {
        (Some(i), Some(v)) => if indices_among(i).len() > 0 && numbers_among(v).len() > 0 {
            Some(SparseVectorV { indices: indices_among(i), values: numbers_among(v) })
        } else {
            None
        },
        _ => None,
    }
}

/// What a named member adds to the vectors read so far: a list of numbers is the primary vector,
/// a list of lists the multivector, with its first row as the primary vector, and an object a
/// sparse vector. Anything else is passed over.
pub open spec fn with_member(state: ParsedVectorV, name: Seq<char>, value: JsonV) -> Result<ParsedVectorV, ApiErrorV> {
    match value {
        JsonV::Array(list) => if list.len() == 0 {
            Ok(state)
        } else {
            match list[0] {
                JsonV::Number(_) => match numbers(list) {
                    Some(primary) => Ok(ParsedVectorV { primary, ..state }),
                    None => Err(ApiErrorV::ExpectedNumber),
                },
                JsonV::Array(_) => match rows_in(list) {
                    Ok(rows) => Ok(ParsedVectorV { primary: rows[0], multivector: Some(rows), ..state }),
                    Err(e) => Err(e),
                },
                _ => Ok(state),
            }
        },
        JsonV::Object(_) => match sparse_in(value) {
            Some(s) => Ok(ParsedVectorV { sparse_vectors: state.sparse_vectors.push((name, s)), ..state }),
            None => Ok(state),
        },
        _ => Ok(state),
    }
}

/// The vectors of an object with named members, taken in their order; without a dense one the
/// primary vector is a single zero.
pub open spec fn named_vectors(members: Seq<(Seq<char>, JsonV)>) -> Result<ParsedVectorV, ApiErrorV>
    decreases members.len(),
{
    if members.len() == 0 {
        Ok(just(seq![zero()]))
    } else {
        match named_vectors(members.drop_last()) {
            Err(e) => Err(e),
            Ok(state) => with_member(state, members.last().0, members.last().1),
        }
    }
}

/// The vectors that a value stands for. `[0.1, 0.2]` is a vector, `[[0.1], [0.2]]` a
/// multivector, `{"name": ...}` holds named ones; null and the empty list are none.
pub open spec fn vectors_in(value: Option<JsonV>) -> Result<Option<ParsedVectorV>, ApiErrorV> {
    match value {
        None => Ok(None),
        Some(JsonV::Null) => Ok(None),
        Some(JsonV::Array(list)) => if list.len() == 0 {
            Ok(None)
        } else {
            match list[0] {
                JsonV::Number(_) => match numbers(list) {
                    Some(primary) => Ok(Some(just(primary))),
                    None => Err(ApiErrorV::ExpectedNumber),
                },
                JsonV::Array(_) => match rows_in(list) {
                    Ok(rows) => Ok(
                        Some(
                            ParsedVectorV {
                                primary: rows[0],
                                multivector: Some(rows),
                                sparse_vectors: Seq::empty(),
                            },
                        ),
                    ),
                    Err(e) => Err(e),
                },
                _ => Err(ApiErrorV::InvalidVectorFormat),
            }
        },
        Some(JsonV::Object(members)) => match named_vectors(members) {
            Ok(v) => Ok(Some(v)),
            Err(e) => Err(e),
        },
        Some(_) => Err(ApiErrorV::InvalidVectorKind),
    }
}

proof fn lemma_named_refused(members: Seq<(Seq<char>, JsonV)>, i: int)
    requires
        0 <= i <= members.len(),
        named_vectors(members.take(i)) is Err,
    ensures
        named_vectors(members) == named_vectors(members.take(i)),
    decreases members.len() - i,
{
    if i < members.len() {
        lemma_prefix_grows(members, i);
        lemma_named_refused(members, i + 1);
    } else {
        assert(members.take(i) =~= members);
    }
}

/// Reads a sparse vector.
fn parse_sparse(value: &Json) -> (r: Option<(Vec<u32>, Vec<Real>)>)
    ensures
        sparse_in(value@) == match r {
            Some(s) => Some(SparseVectorV { indices: s.0@, values: s.1@ }),
            None => None,
        },
{
    match (value.get_array("indices"), value.get_array("values")) {
        (Some(i), Some(v)) => {
            let indices = collect_indices(i);
            let values = collect_numbers(v);
            if indices.len() > 0 && values.len() > 0 {
                Some((indices, values))
            } else {
                None
            }
        },
        _ => None,
    }
}

/// The view of a parsed vector, or of what it is refused for.
pub open spec fn vector_answer(r: Result<ParsedVector, ApiError>) -> Result<ParsedVectorV, ApiErrorV> {
    match r {
        Ok(v) => Ok(v@),
        Err(e) => Err(e@),
    }
}

/// Adds a named member to the vectors read so far.
fn add_member(state: ParsedVector, name: &str, value: &Json) -> (r: Result<ParsedVector, ApiError>)
    ensures
        vector_answer(r) == with_member(state@, name@, value@),
{
    match value {
        Json::Array(list) => {
            proof {
                lemma_array(*list);
            }
            if list.len() == 0 {
                return Ok(state);
            }
            assert(items(list@)[0] == list@[0]@);
            match &list[0] {
                Json::Number(_) => match parse_numbers(list) {
                    Some(primary) => Ok(ParsedVector { primary, ..state }),
                    None => Err(ApiError::ExpectedNumber),
                },
                Json::Array(_) => match parse_rows(list) {
                    Ok(rows) => {
                        proof {
                            lemma_rows_len(items(list@));
                        }
                        let primary = copy_reals(&rows[0]);
                        assert(rows_of(rows@)[0] == primary@);
                        Ok(ParsedVector { primary, multivector: Some(rows), ..state })
                    },
                    Err(e) => Err(e),
                },
                _ => Ok(state),
            }
        },
        Json::Object(_) => match parse_sparse(value) {
            Some(s) => {
                let mut now = state;
                let ghost before = now.sparse_vectors@;
                let ghost sv = SparseVectorV { indices: s.0@, values: s.1@ };
                now.sparse_vectors.push(
                    ParsedSparseVector { name: copied(name), indices: s.0, values: s.1 },
                );
                assert(parsed_sparse_of(now.sparse_vectors@) =~= parsed_sparse_of(before).push((name@, sv)));
                Ok(now)
            },
            None => Ok(state),
        },
        _ => Ok(state),
    }
}

/// The view of what a vector field holds, or of what it is refused for.
pub open spec fn vectors_answer(r: Result<Option<ParsedVector>, ApiError>) -> Result<Option<ParsedVectorV>, ApiErrorV> {
    match r {
        Ok(Some(v)) => Ok(Some(v@)),
        Ok(None) => Ok(None),
        Err(e) => Err(e@),
    }
}

fn parse_named(members: &Vec<(String, Json)>) -> (r: Result<ParsedVector, ApiError>)
    ensures
        vector_answer(r) == named_vectors(fields(members@)),
{
    let mut primary: Vec<Real> = Vec::new();
    primary.push(Real { bits: 0 });
    assert(primary@ =~= seq![zero()]);
    let mut state = ParsedVector { primary, multivector: None, sparse_vectors: Vec::new() };
    assert(state@ =~= just(seq![zero()]));
    let ghost all = fields(members@);
    let mut i: usize = 0;
    while i < members.len()
        invariant
            i <= members@.len(),
            all == fields(members@),
            named_vectors(all.take(i as int)) == Ok::<ParsedVectorV, ApiErrorV>(state@),
        decreases members@.len() - i,
    {
        proof {
            lemma_prefix_grows(all, i as int);
        }
        match add_member(state, members[i].0.as_str(), &members[i].1) {
            Ok(s) => {
                state = s;
            },
            Err(e) => {
                proof {
                    lemma_named_refused(all, i + 1);
                }
                return Err(e);
            },
        }
        i += 1;
    }
    assert(all.take(i as int) =~= all);
    Ok(state)
}

/// Reads the vector field of a point. Supports several formats:
///   Simple:      [0.1, 0.2, 0.3]
///   Multivector: [[0.1, 0.2], [0.3, 0.4]]
///   Named:       {"vector_name": [0.1, 0.2]}
///   Sparse:      {"keywords": {"indices": [...], "values": [...]}}
pub fn parse_vector_optional(value: &Option<Json>) -> (r: Result<Option<ParsedVector>, ApiError>)
    ensures
        vectors_answer(r) == vectors_in(payload_of(*value)),
{
    let v = match value {
        Some(v) => v,
        None => {
            return Ok(None);
        },
    };
    match v {
        Json::Null => Ok(None),
        Json::Array(list) => {
            proof {
                lemma_array(*list);
            }
            if list.len() == 0 {
                return Ok(None);
            }
            assert(items(list@)[0] == list@[0]@);
            match &list[0] {
                Json::Number(_) => match parse_numbers(list) {
                    Some(primary) => {
                        let p = ParsedVector { primary, multivector: None, sparse_vectors: Vec::new() };
                        assert(p@ =~= just(primary@));
                        Ok(Some(p))
                    },
                    None => Err(ApiError::ExpectedNumber),
                },
                Json::Array(_) => match parse_rows(list) {
                    Ok(rows) => {
                        proof {
                            lemma_rows_len(items(list@));
                        }
                        let primary = copy_reals(&rows[0]);
                        assert(rows_of(rows@)[0] == primary@);
                        let p = ParsedVector { primary, multivector: Some(rows), sparse_vectors: Vec::new() };
                        assert(parsed_sparse_of(p.sparse_vectors@) =~= Seq::<(Seq<char>, SparseVectorV)>::empty());
                        Ok(Some(p))
                    },
                    Err(e) => Err(e),
                },
                _ => Err(ApiError::InvalidVectorFormat),
            }
        },
        Json::Object(members) => {
            proof {
                lemma_object(*members);
            }
            match parse_named(members) {
                Ok(p) => Ok(Some(p)),
                Err(e) => Err(e),
            }
        },
        _ => Err(ApiError::InvalidVectorKind),
    }
}

// ---------------------------------------------------------------------------------------------
// Points

/// A point in a request to store points.
pub struct PointRequest {
    pub id: Json,
    /// Vector is optional: a point may consist of its payload
    pub vector: Option<ParsedVector>,
    pub payload: Option<Json>,
}

#[verifier::ext_equal]
pub struct PointRequestV {
    pub id: JsonV,
    pub vector: Option<ParsedVectorV>,
    pub payload: Option<JsonV>,
}

impl View for PointRequest {
    type V = PointRequestV;

    open spec fn view(&self) -> PointRequestV {
        PointRequestV {
            id: self.id@,
            vector: match self.vector {
                Some(v) => Some(v@),
                None => None,
            },
            payload: payload_of(self.payload),
        }
    }
}

pub open spec fn requests_of(v: Seq<PointRequest>) -> Seq<PointRequestV> {
    Seq::new(v.len(), |i: int| v[i]@)
}

/// The identifier of a point that is to be stored: a text or an unsigned integer.
pub open spec fn requested_id(id: JsonV) -> Option<PointIdV> {
    match id {
        JsonV::Text(s) => Some(PointIdV::String(s)),
        JsonV::Number(n) => match n.natural() {
            Some(u) => Some(PointIdV::Integer(u)),
            None => None,
        },
        _ => None,
    }
}

/// Sparse vectors put under their names one after the other.
pub open spec fn put_sparse(
    start: Seq<(Seq<char>, SparseVectorV)>,
    more: Seq<(Seq<char>, SparseVectorV)>,
) -> Seq<(Seq<char>, SparseVectorV)>
    decreases more.len(),
{
    if more.len() == 0 {
        start
    } else {
        put(put_sparse(start, more.drop_last()), more.last().0, more.last().1)
    }
}

/// The point that is to be stored, with an identifier. Rows that are no multivector count as the
/// primary vector alone; without vectors the dense vector is empty.
pub open spec fn requested_point(id: PointIdV, vector: Option<ParsedVectorV>, payload: Option<JsonV>) -> PointV {
    match vector {
        Some(v) => {
            let dense = match v.multivector {
                Some(rows) if is_multivector(rows) => (PointV {
                    multivector: Some(rows),
                    ..plain_point(id, rows[0], payload)
                }),
                _ => plain_point(id, v.primary, payload),
            };
            PointV { sparse_vectors: put_sparse(Seq::empty(), v.sparse_vectors), ..dense }
        },
        None => plain_point(id, Seq::empty(), payload),
    }
}

/// The points that are to be stored, if all identifiers are valid.
pub open spec fn requested_points(reqs: Seq<PointRequestV>) -> Option<Seq<PointV>> {
    if forall|i: int| 0 <= i < reqs.len() ==> requested_id((#[trigger] reqs[i]).id) is Some {
        Some(
            Seq::new(
                reqs.len(),
                |i: int| requested_point(requested_id(reqs[i].id)->0, reqs[i].vector, reqs[i].payload),
            ),
        )
    } else {
        None
    }
}

/// The identifier that a request gives a point is the one it is found by in other requests.
pub proof fn law_requested_id_found(id: JsonV, vector: Option<ParsedVectorV>, payload: Option<JsonV>)
    requires
        requested_id(id) is Some,
    ensures
        key_of_json(id) == Some(requested_point(requested_id(id)->0, vector, payload).key()),
        requested_point(requested_id(id)->0, vector, payload).payload == payload,
{
    let p = requested_point(requested_id(id)->0, vector, payload);
    assert(p.id == requested_id(id)->0);
}

fn read_id(id: &Json) -> (r: Option<PointId>)
    ensures
        requested_id(id@) == match r {
            Some(p) => Some(p@),
            None => None,
        },
{
    match id {
        Json::Text(s) => Some(PointId::String(s.clone())),
        Json::Number(n) => match n.as_u64() {
            Some(u) => Some(PointId::Integer(u)),
            None => None,
        },
        _ => None,
    }
}

fn read_point(id: PointId, vector: &Option<ParsedVector>, payload: &Option<Json>) -> (r: Point)
    ensures
        r@ == requested_point(
            id@,
            match *vector {
                Some(v) => Some(v@),
                None => None,
            },
            payload_of(*payload),
        ),
{
    let given = copy_payload(payload);
    match vector {
        Some(v) => {
            let ghost id_v = id@;
            let rows: Option<MultiVector> = match &v.multivector {
                Some(rows) => {
                    let copy = copy_rows(rows);
                    let ghost copy_v = copy@;
                    assert(rows_of(copy_v) == rows_of(rows@));
                    match MultiVector::new(copy) {
                        Ok(m) => Some(m),
                        Err(_) => None,
                    }
                },
                None => None,
            };
            let mut point = match rows {
                Some(m) => Point::new_multi(id, m, given),
                None => Point::new(id, Vector::new(copy_reals(&v.primary)), given),
            };
            let ghost start = point@;
            let ghost all = parsed_sparse_of(v.sparse_vectors@);
            assert(all.take(0) =~= Seq::<(Seq<char>, SparseVectorV)>::empty());
            let mut i: usize = 0;
            while i < v.sparse_vectors.len()
                invariant
                    i <= v.sparse_vectors@.len(),
                    all == parsed_sparse_of(v.sparse_vectors@),
                    point@ == (PointV {
                        sparse_vectors: put_sparse(start.sparse_vectors, all.take(i as int)),
                        ..start
                    }),
                decreases v.sparse_vectors@.len() - i,
            {
                proof {
                    lemma_prefix_grows(all, i as int);
                }
                let s = &v.sparse_vectors[i];
                let indices = s.indices.clone();
                assert(indices@ =~= s.indices@);
                point.add_sparse_vector(
                    s.name.clone(),
                    SparseVector::new(indices, copy_reals(&s.values)),
                );
                i += 1;
            }
            assert(all.take(i as int) =~= all);
            point
        },
        None => {
            let empty: Vec<Real> = Vec::new();
            assert(empty@ =~= Seq::<Real>::empty());
            Point::new(id, Vector::new(empty), given)
        },
    }
}

/// Reads the points that are to be stored.
pub fn read_points(reqs: &Vec<PointRequest>) -> (r: Option<Vec<Point>>)
    ensures
        requested_points(requests_of(reqs@)) == match r {
            Some(v) => Some(points_view(v@)),
            None => None,
        },
{
    let mut r: Vec<Point> = Vec::new();
    let ghost all = requests_of(reqs@);
    let mut i: usize = 0;
    while i < reqs.len()
        invariant
            i <= reqs@.len(),
            all == requests_of(reqs@),
            r@.len() == i,
            forall|j: int|
                0 <= j < i ==> requested_id((#[trigger] all[j]).id) is Some && r@[j]@ == requested_point(
                    requested_id(all[j].id)->0,
                    all[j].vector,
                    all[j].payload,
                ),
        decreases reqs@.len() - i,
    {
        assert(all[i as int] == reqs@[i as int]@);
        match read_id(&reqs[i].id) {
            Some(id) => {
                r.push(read_point(id, &reqs[i].vector, &reqs[i].payload));
            },
            None => {
                assert(requested_id(all[i as int].id) is None);
                return None;
            },
        }
        i += 1;
    }
    assert(points_view(r@) =~= Seq::new(
        all.len(),
        |j: int| requested_point(requested_id(all[j].id)->0, all[j].vector, all[j].payload),
    ));
    Some(r)
}

/// The point that a single JSON value stands for, if it is one: it has an identifier, a number
/// that is no unsigned integer counting as 0, and a vector of numbers.
pub open spec fn point_in(value: JsonV) -> Option<PointV> {
    match (value.get("id"@), value.get_array("vector"@)) {
        (Some(id), Some(list)) => match numbers(list) {
            Some(vector) => match id {
                JsonV::Text(s) => Some(plain_point(PointIdV::String(s), vector, value.get("payload"@))),
                JsonV::Number(n) => Some(
                    plain_point(
                        PointIdV::Integer(
                            match n.natural() {
                                Some(u) => u,
                                None => 0,
                            },
                        ),
                        vector,
                        value.get("payload"@),
                    ),
                ),
                _ => None,
            },
            None => None,
        },
        _ => None,
    }
}

/// Parse a point from JSON
pub fn parse_point_from_json(value: &Json) -> (r: Option<Point>)
    ensures
        point_in(value@) == match r {
            Some(p) => Some(p@),
            None => None,
        },
{
    let id = match value.get("id") {
        Some(Json::Text(s)) => PointId::String(s.clone()),
        Some(Json::Number(n)) => match n.as_u64() {
            Some(u) => PointId::Integer(u),
            None => PointId::Integer(0),
        },
        _ => {
            return None;
        },
    };
    let vector = match value.get_array("vector") {
        Some(list) => match parse_numbers(list) {
            Some(v) => v,
            None => {
                return None;
            },
        },
        None => {
            return None;
        },
    };
    let payload = match value.get("payload") {
        Some(p) => Some(p.clone()),
        None => None,
    };
    Some(Point::new(id, Vector::new(vector), payload))
}

} // verus!
