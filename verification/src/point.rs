//! Points: an identifier, a vector and what else is kept with them.

use vstd::prelude::*;
use crate::entries::{lookup, put, set_named, value_named, viewed};
use crate::ieee::Real;
use crate::json::{Json, JsonV};
use crate::text::{decimal, decimal_of};

verus! {

/// A copy of a list of numbers.
pub fn copy_reals(v: &Vec<Real>) -> (r: Vec<Real>)
    ensures
        r@ == v@,
{
    let r = v.clone();
    assert(r@ =~= v@);
    r
}

/// How a point is identified.
pub enum PointId {
    String(String),
    Integer(u64),
    Uuid(String),
}

pub enum PointIdV {
    String(Seq<char>),
    Integer(u64),
    Uuid(Seq<char>),
}

impl PointIdV {
    /// The text under which a point is stored: a text as it is, a number in decimal.
    pub open spec fn key(self) -> Seq<char> {
        match self {
            PointIdV::String(s) => s,
            PointIdV::Integer(n) => decimal_of(n as nat),
            PointIdV::Uuid(u) => u,
        }
    }
}

impl View for PointId {
    type V = PointIdV;

    open spec fn view(&self) -> PointIdV {
        match *self {
            PointId::String(s) => PointIdV::String(s@),
            PointId::Integer(n) => PointIdV::Integer(n),
            PointId::Uuid(u) => PointIdV::Uuid(u@),
        }
    }
}

impl Clone for PointId {
    fn clone(&self) -> (r: Self)
        ensures
            r@ == self@,
    {
        match self {
            PointId::String(s) => PointId::String(s.clone()),
            PointId::Integer(n) => PointId::Integer(*n),
            PointId::Uuid(u) => PointId::Uuid(u.clone()),
        }
    }
}

impl PointId {
    /// The text under which the point is stored.
    pub fn key(&self) -> (r: String)
        ensures
            r@ == self@.key(),
    {
        match self {
            PointId::String(s) => s.clone(),
            PointId::Integer(n) => decimal(*n),
            PointId::Uuid(u) => u.clone(),
        }
    }
}

/// A dense vector.
pub struct Vector {
    pub data: Vec<Real>,
}

impl View for Vector {
    type V = Seq<Real>;

    open spec fn view(&self) -> Seq<Real> {
        self.data@
    }
}

impl Clone for Vector {
    fn clone(&self) -> (r: Self)
        ensures
            r@ == self@,
    {
        Vector { data: copy_reals(&self.data) }
    }
}

impl Vector {
    pub fn new(data: Vec<Real>) -> (r: Vector)
        ensures
            r@ == data@,
    {
        Vector { data }
    }

    pub fn dim(&self) -> (r: usize)
        ensures
            r == self@.len(),
    {
        self.data.len()
    }

    pub fn as_slice(&self) -> (r: &[Real])
        ensures
            r@ == self@,
    {
        self.data.as_slice()
    }
}

/// The rows of a list of vectors.
pub open spec fn rows_of(v: Seq<Vec<Real>>) -> Seq<Seq<Real>> {
    Seq::new(v.len(), |i: int| v[i]@)
}

/// A copy of a list of vectors.
pub fn copy_rows(v: &Vec<Vec<Real>>) -> (r: Vec<Vec<Real>>)
    ensures
        rows_of(r@) == rows_of(v@),
{
    let mut r: Vec<Vec<Real>> = Vec::new();
    let mut i: usize = 0;
    while i < v.len()
        invariant
            i <= v@.len(),
            r@.len() == i,
            forall|j: int| 0 <= j < i ==> (#[trigger] r@[j])@ == v@[j]@,
        decreases v@.len() - i,
    {
        r.push(copy_reals(&v[i]));
        i += 1;
    }
    assert(rows_of(r@) =~= rows_of(v@));
    r
}

/// Why a list of vectors is no multivector.
#[derive(PartialEq, Eq, Clone, Copy, Debug, Structural)]
pub enum MultiVectorError {
    /// There is no vector.
    Empty,
    /// The vectors have no components.
    ZeroDimension,
    /// The vector at `row` has another length than the first.
    RowLength { row: usize },
}

/// A list of at least one vector, all of one length above zero.
pub open spec fn is_multivector(rows: Seq<Seq<Real>>) -> bool {
    &&& rows.len() > 0
    &&& rows[0].len() > 0
    &&& forall|i: int| 0 <= i < rows.len() ==> (#[trigger] rows[i]).len() == rows[0].len()
}

/// What keeps a list of vectors from being a multivector: the first thing that is wrong.
pub open spec fn is_fault(rows: Seq<Seq<Real>>, e: MultiVectorError) -> bool {
    match e {
        MultiVectorError::Empty => rows.len() == 0,
        MultiVectorError::ZeroDimension => rows.len() > 0 && rows[0].len() == 0,
        MultiVectorError::RowLength { row } => {
            &&& row < rows.len()
            &&& rows[0].len() > 0
            &&& rows[row as int].len() != rows[0].len()
            &&& forall|i: int| 0 <= i < row ==> (#[trigger] rows[i]).len() == rows[0].len()
        },
    }
}

/// A point's list of vectors of one length.
pub struct MultiVector {
    rows: Vec<Vec<Real>>,
}

impl View for MultiVector {
    type V = Seq<Seq<Real>>;

    closed spec fn view(&self) -> Seq<Seq<Real>> {
        rows_of(self.rows@)
    }
}

impl MultiVector {
    #[verifier::type_invariant]
    spec fn inv(self) -> bool {
        is_multivector(rows_of(self.rows@))
    }

    /// Takes the vectors if they are a multivector.
    pub fn new(rows: Vec<Vec<Real>>) -> (r: Result<MultiVector, MultiVectorError>)
        ensures
            match r {
                Ok(m) => is_multivector(rows_of(rows@)) && m@ == rows_of(rows@),
                Err(e) => !is_multivector(rows_of(rows@)) && is_fault(rows_of(rows@), e),
            },
    {
        if rows.len() == 0 {
            return Err(MultiVectorError::Empty);
        }
        let dim: usize = rows[0].len();
        if dim == 0 {
            return Err(MultiVectorError::ZeroDimension);
        }
        let mut i: usize = 0;
        while i < rows.len()
            invariant
                i <= rows@.len(),
                rows@.len() > 0,
                dim > 0,
                dim == rows@[0]@.len(),
                forall|j: int| 0 <= j < i ==> (#[trigger] rows@[j])@.len() == dim,
            decreases rows@.len() - i,
        {
            if rows[i].len() != dim {
                assert(rows_of(rows@)[i as int].len() != rows_of(rows@)[0].len());
                return Err(MultiVectorError::RowLength { row: i });
            }
            i += 1;
        }
        Ok(MultiVector { rows })
    }

    /// The multivector that holds one vector.
    pub fn from_single(row: Vec<Real>) -> (r: Result<MultiVector, MultiVectorError>)
        ensures
            match r {
                Ok(m) => row@.len() > 0 && m@ == seq![row@],
                Err(e) => row@.len() == 0 && e == MultiVectorError::ZeroDimension,
            },
    {
        let ghost here = row@;
        let mut rows: Vec<Vec<Real>> = Vec::new();
        rows.push(row);
        assert(rows_of(rows@) =~= seq![here]);
        MultiVector::new(rows)
    }

    pub fn vectors(&self) -> (r: &Vec<Vec<Real>>)
        ensures
            rows_of(r@) == self@,
            is_multivector(self@),
    {
        proof {
            use_type_invariant(self);
        }
        &self.rows
    }

    /// How long the vectors are.
    pub fn dim(&self) -> (r: usize)
        ensures
            is_multivector(self@),
            r == self@[0].len(),
            r > 0,
    {
        proof {
            use_type_invariant(self);
        }
        assert(rows_of(self.rows@)[0] == self.rows@[0]@);
        self.rows[0].len()
    }
}

impl Clone for MultiVector {
    fn clone(&self) -> (r: Self)
        ensures
            r@ == self@,
    {
        proof {
            use_type_invariant(self);
        }
        MultiVector { rows: copy_rows(&self.rows) }
    }
}

/// A sparse vector: values at some indices.
pub struct SparseVector {
    pub indices: Vec<u32>,
    pub values: Vec<Real>,
}

#[verifier::ext_equal]
pub struct SparseVectorV {
    pub indices: Seq<u32>,
    pub values: Seq<Real>,
}

impl View for SparseVector {
    type V = SparseVectorV;

    open spec fn view(&self) -> SparseVectorV {
        SparseVectorV { indices: self.indices@, values: self.values@ }
    }
}

impl Clone for SparseVector {
    fn clone(&self) -> (r: Self)
        ensures
            r@ == self@,
    {
        let indices = self.indices.clone();
        assert(indices@ =~= self.indices@);
        SparseVector { indices, values: copy_reals(&self.values) }
    }
}

impl SparseVector {
    pub fn new(indices: Vec<u32>, values: Vec<Real>) -> (r: SparseVector)
        ensures
            r@ == (SparseVectorV { indices: indices@, values: values@ }),
    {
        SparseVector { indices, values }
    }
}

/// Named sparse vectors.
pub open spec fn sparse_of(v: Seq<(String, SparseVector)>) -> Seq<(Seq<char>, SparseVectorV)> {
    Seq::new(v.len(), |i: int| (v[i].0@, v[i].1@))
}

/// A point of a collection.
pub struct Point {
    pub id: PointId,
    pub vector: Vector,
    pub payload: Option<Json>,
    pub version: u64,
    pub multivector: Option<MultiVector>,
    pub sparse_vectors: Vec<(String, SparseVector)>,
}

#[verifier::ext_equal]
pub struct PointV {
    pub id: PointIdV,
    pub vector: Seq<Real>,
    pub payload: Option<JsonV>,
    pub version: u64,
    pub multivector: Option<Seq<Seq<Real>>>,
    pub sparse_vectors: Seq<(Seq<char>, SparseVectorV)>,
}

impl PointV {
    /// The text under which the point is stored.
    pub open spec fn key(self) -> Seq<char> {
        self.id.key()
    }
}

pub open spec fn payload_of(p: Option<Json>) -> Option<JsonV> {
    match p {
        Some(j) => Some(j@),
        None => None,
    }
}

pub open spec fn multivector_of(m: Option<MultiVector>) -> Option<Seq<Seq<Real>>> {
    match m {
        Some(v) => Some(v@),
        None => None,
    }
}

impl View for Point {
    type V = PointV;

    open spec fn view(&self) -> PointV {
        PointV {
            id: self.id@,
            vector: self.vector@,
            payload: payload_of(self.payload),
            version: self.version,
            multivector: multivector_of(self.multivector),
            sparse_vectors: sparse_of(self.sparse_vectors@),
        }
    }
}

/// A copy of a payload.
pub fn copy_payload(p: &Option<Json>) -> (r: Option<Json>)
    ensures
        payload_of(r) == payload_of(*p),
{
    match p {
        Some(j) => Some(j.clone()),
        None => None,
    }
}

impl Clone for Point {
    fn clone(&self) -> (r: Self)
        ensures
            r@ == self@,
    {
        let mut sparse: Vec<(String, SparseVector)> = Vec::new();
        let mut i: usize = 0;
        while i < self.sparse_vectors.len()
            invariant
                i <= self.sparse_vectors@.len(),
                sparse@.len() == i,
                forall|j: int|
                    0 <= j < i ==> (#[trigger] sparse@[j]).0@ == self.sparse_vectors@[j].0@ && sparse@[j].1@
                        == self.sparse_vectors@[j].1@,
            decreases self.sparse_vectors@.len() - i,
        {
            sparse.push((self.sparse_vectors[i].0.clone(), self.sparse_vectors[i].1.clone()));
            i += 1;
        }
        assert(sparse_of(sparse@) =~= sparse_of(self.sparse_vectors@));
        Point {
            id: self.id.clone(),
            vector: self.vector.clone(),
            payload: copy_payload(&self.payload),
            version: self.version,
            multivector: match &self.multivector {
                Some(m) => Some(m.clone()),
                None => None,
            },
            sparse_vectors: sparse,
        }
    }
}

/// A point with a dense vector and nothing else but its payload.
pub open spec fn plain_point(id: PointIdV, vector: Seq<Real>, payload: Option<JsonV>) -> PointV {
    PointV { id, vector, payload, version: 0, multivector: None, sparse_vectors: Seq::empty() }
}

impl Point {
    pub fn new(id: PointId, vector: Vector, payload: Option<Json>) -> (r: Point)
        ensures
            r@ == plain_point(id@, vector@, payload_of(payload)),
    {
        let r = Point { id, vector, payload, version: 0, multivector: None, sparse_vectors: Vec::new() };
        assert(r@ =~= plain_point(id@, vector@, payload_of(payload)));
        r
    }

    /// A point with a multivector, whose dense vector is the first of its vectors.
    pub fn new_multi(id: PointId, multivector: MultiVector, payload: Option<Json>) -> (r: Point)
        ensures
            r@ == (PointV {
                multivector: Some(multivector@),
                ..plain_point(id@, multivector@[0], payload_of(payload))
            }),
    {
        let first = copy_reals(&multivector.vectors()[0]);
        assert(first@ == multivector@[0]);
        let r = Point {
            id,
            vector: Vector { data: first },
            payload,
            version: 0,
            multivector: Some(multivector),
            sparse_vectors: Vec::new(),
        };
        assert(r@ =~= (PointV {
            multivector: Some(multivector@),
            ..plain_point(id@, multivector@[0], payload_of(payload))
        }));
        r
    }

    /// Gives the point a sparse vector under a name.
    pub fn add_sparse_vector(&mut self, name: String, vector: SparseVector)
        ensures
            final(self)@ == (PointV {
                sparse_vectors: put(old(self)@.sparse_vectors, name@, vector@),
                ..old(self)@
            }),
    {
        let ghost f = |v: SparseVector| v@;
        assert(sparse_of(self.sparse_vectors@) =~= viewed(self.sparse_vectors@, f));
        set_named::<SparseVector, SparseVectorV>(&mut self.sparse_vectors, name, vector, Ghost(f));
        assert(sparse_of(self.sparse_vectors@) =~= viewed(self.sparse_vectors@, f));
    }

    /// The sparse vector under a name.
    pub fn sparse_vector<'a>(&'a self, name: &str) -> (r: Option<&'a SparseVector>)
        ensures
            lookup(self@.sparse_vectors, name@) == match r {
                Some(v) => Some(v@),
                None => None,
            },
    {
        let ghost f = |v: SparseVector| v@;
        assert(sparse_of(self.sparse_vectors@) =~= viewed(self.sparse_vectors@, f));
        value_named::<SparseVector, SparseVectorV>(&self.sparse_vectors, name, Ghost(f))
    }
}

} // verus!
