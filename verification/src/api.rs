//! What the interfaces of the server share: refusals, identifiers in JSON, and points as they
//! are shown.

use vstd::prelude::*;
use crate::collection::Error;
use crate::hnsw::scored_of;
use crate::ieee::Real;
use crate::json::{Json, JsonV};
use crate::point::{
    copy_reals, copy_rows, payload_of, rows_of, MultiVectorError, Point, PointId, PointIdV, PointV,
};
use crate::text::{copied, decimal, decimal_of};

verus! {

/// Why a request is refused.
pub enum ApiError {
    InvalidPointId,
    InvalidPointIdFormat,
    PointNotFound(String),
    ExpectedNumber,
    ExpectedArrays,
    InvalidVectorFormat,
    InvalidVectorKind,
    VectorsRequired,
    VectorOrTextRequired,
    MissingIndices,
    MissingValues,
    InvalidVector,
    InvalidMultivectorNumber,
    InvalidMultivectorRow,
    InvalidMultivector(MultiVectorError),
    InvalidQueryFormat,
    PrefetchRequired,
    TargetRequired,
    InvalidQueryVector,
    QueryNotArray,
    PositiveRequired,
    Core(Error),
}

#[verifier::ext_equal]
pub enum ApiErrorV {
    InvalidPointId,
    InvalidPointIdFormat,
    PointNotFound(Seq<char>),
    ExpectedNumber,
    ExpectedArrays,
    InvalidVectorFormat,
    InvalidVectorKind,
    VectorsRequired,
    VectorOrTextRequired,
    MissingIndices,
    MissingValues,
    InvalidVector,
    InvalidMultivectorNumber,
    InvalidMultivectorRow,
    InvalidMultivector(MultiVectorError),
    InvalidQueryFormat,
    PrefetchRequired,
    TargetRequired,
    InvalidQueryVector,
    QueryNotArray,
    PositiveRequired,
    Core(Error),
}

impl View for ApiError {
    type V = ApiErrorV;

    open spec fn view(&self) -> ApiErrorV {
        match *self {
            ApiError::InvalidPointId => ApiErrorV::InvalidPointId,
            ApiError::InvalidPointIdFormat => ApiErrorV::InvalidPointIdFormat,
            ApiError::PointNotFound(s) => ApiErrorV::PointNotFound(s@),
            ApiError::ExpectedNumber => ApiErrorV::ExpectedNumber,
            ApiError::ExpectedArrays => ApiErrorV::ExpectedArrays,
            ApiError::InvalidVectorFormat => ApiErrorV::InvalidVectorFormat,
            ApiError::InvalidVectorKind => ApiErrorV::InvalidVectorKind,
            ApiError::VectorsRequired => ApiErrorV::VectorsRequired,
            ApiError::VectorOrTextRequired => ApiErrorV::VectorOrTextRequired,
            ApiError::MissingIndices => ApiErrorV::MissingIndices,
            ApiError::MissingValues => ApiErrorV::MissingValues,
            ApiError::InvalidVector => ApiErrorV::InvalidVector,
            ApiError::InvalidMultivectorNumber => ApiErrorV::InvalidMultivectorNumber,
            ApiError::InvalidMultivectorRow => ApiErrorV::InvalidMultivectorRow,
            ApiError::InvalidMultivector(e) => ApiErrorV::InvalidMultivector(e),
            ApiError::InvalidQueryFormat => ApiErrorV::InvalidQueryFormat,
            ApiError::PrefetchRequired => ApiErrorV::PrefetchRequired,
            ApiError::TargetRequired => ApiErrorV::TargetRequired,
            ApiError::InvalidQueryVector => ApiErrorV::InvalidQueryVector,
            ApiError::QueryNotArray => ApiErrorV::QueryNotArray,
            ApiError::PositiveRequired => ApiErrorV::PositiveRequired,
            ApiError::Core(e) => ApiErrorV::Core(e),
        }
    }
}

/// What is wrong with the vectors of a multivector, in words.
pub open spec fn multivector_problem(e: MultiVectorError) -> Seq<char> {
    match e {
        MultiVectorError::Empty => "no vectors"@,
        MultiVectorError::ZeroDimension => "vectors without components"@,
        MultiVectorError::RowLength { row } => "vectors of different lengths, first at "@ + decimal_of(row as nat),
    }
}

/// What is wrong with an operation on a collection, in words.
pub open spec fn core_problem(e: Error) -> Seq<char> {
    match e {
        Error::InvalidDimension { expected, actual } => "Invalid vector dimension: expected "@ + decimal_of(
            expected as nat,
        ) + ", got "@ + decimal_of(actual as nat),
    }
}

impl ApiErrorV {
    /// The refusal in words.
    pub open spec fn message(self) -> Seq<char> {
        match self {
            ApiErrorV::InvalidPointId => "Invalid point ID"@,
            ApiErrorV::InvalidPointIdFormat => "Invalid point ID format"@,
            ApiErrorV::PointNotFound(s) => "Point with ID '"@ + s + "' not found"@,
            ApiErrorV::ExpectedNumber => "expected f32"@,
            ApiErrorV::ExpectedArrays => "expected array of arrays for multivector"@,
            ApiErrorV::InvalidVectorFormat => "invalid vector format"@,
            ApiErrorV::InvalidVectorKind => "vector must be an array, object, or null"@,
            ApiErrorV::VectorsRequired =>
                "'vectors' configuration is required. Clients must provide embedding vectors."@,
            ApiErrorV::VectorOrTextRequired => "Either 'vector' or 'text' must be provided"@,
            ApiErrorV::MissingIndices => "Invalid sparse vector: missing indices"@,
            ApiErrorV::MissingValues => "Invalid sparse vector: missing values"@,
            ApiErrorV::InvalidVector => "Invalid vector: expected f32"@,
            ApiErrorV::InvalidMultivectorNumber => "Invalid multivector: expected f32"@,
            ApiErrorV::InvalidMultivectorRow => "Invalid multivector: expected array"@,
            ApiErrorV::InvalidMultivector(e) => "Invalid multivector: "@ + multivector_problem(e),
            ApiErrorV::InvalidQueryFormat => "Invalid query format"@,
            ApiErrorV::PrefetchRequired => "Fusion requires prefetch"@,
            ApiErrorV::TargetRequired => "Target vector or point ID required"@,
            ApiErrorV::InvalidQueryVector => "Invalid query vector"@,
            ApiErrorV::QueryNotArray => "Query must be a vector array"@,
            ApiErrorV::PositiveRequired => "At least one valid positive example is required"@,
            ApiErrorV::Core(e) => core_problem(e),
        }
    }
}

/// Two texts one after the other.
pub fn joined(a: &str, b: &str) -> (r: String)
    ensures
        r@ == a@ + b@,
{
    let mut r = copied(a);
    r.append(b);
    r
}

impl ApiError {
    /// The refusal in words.
    pub fn message(&self) -> (r: String)
        ensures
            r@ == self@.message(),
    {
        match self {
            ApiError::InvalidPointId => copied("Invalid point ID"),
            ApiError::InvalidPointIdFormat => copied("Invalid point ID format"),
            ApiError::PointNotFound(s) => {
                let head = joined("Point with ID '", s.as_str());
                joined(head.as_str(), "' not found")
            },
            ApiError::ExpectedNumber => copied("expected f32"),
            ApiError::ExpectedArrays => copied("expected array of arrays for multivector"),
            ApiError::InvalidVectorFormat => copied("invalid vector format"),
            ApiError::InvalidVectorKind => copied("vector must be an array, object, or null"),
            ApiError::VectorsRequired => copied(
                "'vectors' configuration is required. Clients must provide embedding vectors.",
            ),
            ApiError::VectorOrTextRequired => copied("Either 'vector' or 'text' must be provided"),
            ApiError::MissingIndices => copied("Invalid sparse vector: missing indices"),
            ApiError::MissingValues => copied("Invalid sparse vector: missing values"),
            ApiError::InvalidVector => copied("Invalid vector: expected f32"),
            ApiError::InvalidMultivectorNumber => copied("Invalid multivector: expected f32"),
            ApiError::InvalidMultivectorRow => copied("Invalid multivector: expected array"),
            ApiError::InvalidMultivector(e) => {
                let problem = match e {
                    MultiVectorError::Empty => copied("no vectors"),
                    MultiVectorError::ZeroDimension => copied("vectors without components"),
                    MultiVectorError::RowLength { row } => {
                        let at = decimal(*row as u64);
                        joined("vectors of different lengths, first at ", at.as_str())
                    },
                };
                joined("Invalid multivector: ", problem.as_str())
            },
            ApiError::InvalidQueryFormat => copied("Invalid query format"),
            ApiError::PrefetchRequired => copied("Fusion requires prefetch"),
            ApiError::TargetRequired => copied("Target vector or point ID required"),
            ApiError::InvalidQueryVector => copied("Invalid query vector"),
            ApiError::QueryNotArray => copied("Query must be a vector array"),
            ApiError::PositiveRequired => copied("At least one valid positive example is required"),
            ApiError::Core(e) => match e {
                Error::InvalidDimension { expected, actual } => {
                    let wanted = decimal(*expected as u64);
                    let given = decimal(*actual as u64);
                    let head = joined("Invalid vector dimension: expected ", wanted.as_str());
                    let middle = joined(head.as_str(), ", got ");
                    joined(middle.as_str(), given.as_str())
                },
            },
        }
    }
}

/// The key that an identifier in JSON leads to: a text as it is, a number as it is written.
pub open spec fn key_of_json(id: JsonV) -> Option<Seq<char>> {
    match id {
        JsonV::Text(s) => Some(s),
        JsonV::Number(n) => Some(n.text()),
        _ => None,
    }
}

pub fn json_key(id: &Json) -> (r: Option<String>)
    ensures
        key_of_json(id@) == match r {
            Some(s) => Some(s@),
            None => None,
        },
{
    match id {
        Json::Text(s) => Some(s.clone()),
        Json::Number(n) => Some(n.to_text()),
        _ => None,
    }
}

/// What of a point is shown beside its identifier, version and score.
#[derive(Clone, Copy, Debug, PartialEq, Eq, Structural)]
pub struct Shown {
    pub payload: bool,
    pub vector: bool,
    pub multivector: bool,
}

/// A point as it is shown: what is not shown is `None`.
pub struct Record {
    pub id: PointId,
    pub version: u64,
    pub payload: Option<Json>,
    pub vector: Option<Vec<Real>>,
    pub multivector: Option<Vec<Vec<Real>>>,
}

#[verifier::ext_equal]
pub struct RecordV {
    pub id: PointIdV,
    pub version: u64,
    pub payload: Option<JsonV>,
    pub vector: Option<Seq<Real>>,
    pub multivector: Option<Seq<Seq<Real>>>,
}

impl View for Record {
    type V = RecordV;

    open spec fn view(&self) -> RecordV {
        RecordV {
            id: self.id@,
            version: self.version,
            payload: payload_of(self.payload),
            vector: match self.vector {
                Some(v) => Some(v@),
                None => None,
            },
            multivector: match self.multivector {
                Some(rows) => Some(rows_of(rows@)),
                None => None,
            },
        }
    }
}

/// A point as it is shown. A payload that is asked for but not there is shown as `absent`.
pub open spec fn record_of(point: PointV, shown: Shown, absent: JsonV) -> RecordV {
    RecordV {
        id: point.id,
        version: point.version,
        payload: if shown.payload {
            Some(
                match point.payload {
                    Some(p) => p,
                    None => absent,
                },
            )
        } else {
            None
        },
        vector: if shown.vector {
            Some(point.vector)
        } else {
            None
        },
        multivector: if shown.multivector {
            point.multivector
        } else {
            None
        },
    }
}

pub fn record(point: &Point, shown: Shown, absent: Json) -> (r: Record)
    ensures
        r@ == record_of(point@, shown, absent@),
{
    let payload: Option<Json> = if shown.payload {
        match &point.payload {
            Some(p) => Some(p.clone()),
            None => Some(absent),
        }
    } else {
        None
    };
    let vector: Option<Vec<Real>> = if shown.vector {
        Some(copy_reals(&point.vector.data))
    } else {
        None
    };
    let multivector: Option<Vec<Vec<Real>>> = if shown.multivector {
        match &point.multivector {
            Some(m) => Some(copy_rows(m.vectors())),
            None => None,
        }
    } else {
        None
    };
    Record { id: point.id.clone(), version: point.version, payload, vector, multivector }
}

/// A point that was found, as it is shown, with its score.
pub struct Hit {
    pub record: Record,
    pub score: Real,
}

/// Points that were found.
pub open spec fn hits_of(v: Seq<Hit>) -> Seq<(RecordV, Real)> {
    Seq::new(v.len(), |i: int| (v[i].record@, v[i].score))
}

/// Found points as they are shown.
pub open spec fn shown_hits(found: Seq<(PointV, Real)>, shown: Shown) -> Seq<(RecordV, Real)> {
    Seq::new(found.len(), |i: int| (record_of(found[i].0, shown, JsonV::Null), found[i].1))
}

pub fn show_hits(found: &Vec<(Point, Real)>, shown: Shown) -> (r: Vec<Hit>)
    ensures
        hits_of(r@) == shown_hits(scored_of(found@), shown),
{
    let mut r: Vec<Hit> = Vec::new();
    let mut i: usize = 0;
    while i < found.len()
        invariant
            i <= found@.len(),
            r@.len() == i,
            forall|j: int|
                0 <= j < i ==> (#[trigger] r@[j]).record@ == record_of(found@[j].0@, shown, JsonV::Null) && r@[j].score
                    == found@[j].1,
        decreases found@.len() - i,
    {
        r.push(Hit { record: record(&found[i].0, shown, Json::Null), score: found[i].1 });
        i += 1;
    }
    assert(hits_of(r@) =~= shown_hits(scored_of(found@), shown));
    r
}

} // verus!
