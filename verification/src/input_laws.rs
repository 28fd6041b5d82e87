//! What is read from requests.

use vstd::prelude::*;
use crate::api::ApiErrorV;
use crate::entries::{law_put_leaves_others, law_put_then_lookup, lemma_last_at, lookup};
use crate::ieee::Real;
use crate::input::{
    indices_among, named_vectors, numbers, numbers_among, point_in, put_sparse, requested_id,
    requested_point, requested_points, rows_in, sparse_in, vectors_in, ParsedVectorV,
    PointRequestV,
};
use crate::json::{JsonV, NumberV};
use crate::point::{is_multivector, PointIdV, SparseVectorV};

verus! {

// ---------------------------------------------------------------------------------------------
// Lists of numbers

/// A list is a vector exactly if everything in it is a number; its components are these, in order.
pub proof fn law_numbers_read(list: Seq<JsonV>)
    ensures
        (numbers(list) is Some) == forall|i: int| 0 <= i < list.len() ==> (#[trigger] list[i]) is Number,
        numbers(list) matches Some(v) ==> v.len() == list.len() && forall|i: int|
            0 <= i < list.len() ==> #[trigger] v[i] == list[i]->Number_0.single,
{
}

/// Of the values of a sparse vector, every number counts, in order.
pub proof fn law_values_read(list: Seq<JsonV>)
    ensures
        numbers_among(list) == list.filter_map(
            |v: JsonV|
                if v is Number {
                    Some(v->Number_0.single)
                } else {
                    None
                },
        ),
    decreases list.len(),
{
    reveal(Seq::filter_map);
    let f = |v: JsonV|
        if v is Number {
            Some(v->Number_0.single)
        } else {
            None
        };
    if list.len() > 0 {
        law_values_read(list.drop_last());
        let rest = list.drop_last().filter_map(f);
        if let Some(x) = f(list.last()) {
            assert(rest.push(x) =~= rest + seq![x]);
        }
    } else {
        assert(numbers_among(list) =~= list.filter_map(f));
    }
}

/// Of the indices of a sparse vector, every natural number counts, in order, by its lowest 32 bits.
pub proof fn law_indices_read(list: Seq<JsonV>)
    ensures
        indices_among(list) == list.filter_map(
            |v: JsonV|
                if v is Number && v->Number_0.natural() is Some {
                    Some((v->Number_0.natural()->0 % 0x1_0000_0000) as u32)
                } else {
                    None
                },
        ),
    decreases list.len(),
{
    reveal(Seq::filter_map);
    let f = |v: JsonV|
        if v is Number && v->Number_0.natural() is Some {
            Some((v->Number_0.natural()->0 % 0x1_0000_0000) as u32)
        } else {
            None
        };
    if list.len() > 0 {
        law_indices_read(list.drop_last());
        let rest = list.drop_last().filter_map(f);
        if let Some(x) = f(list.last()) {
            assert(rest.push(x) =~= rest + seq![x]);
        }
    } else {
        assert(indices_among(list) =~= list.filter_map(f));
    }
}

/// A value is a list of numbers.
pub open spec fn is_row(value: JsonV) -> bool {
    value is Array && forall|i: int| 0 <= i < value->Array_0.len() ==> (#[trigger] value->Array_0[i]) is Number
}

/// A list of lists of numbers gives one row for each; a list with something else in it is refused,
/// for the first thing that is none.
pub proof fn law_rows_read(list: Seq<JsonV>)
    ensures
        (rows_in(list) is Ok) == forall|i: int| 0 <= i < list.len() ==> is_row(#[trigger] list[i]),
        rows_in(list) matches Ok(rows) ==> rows.len() == list.len() && forall|i: int|
            0 <= i < list.len() ==> Some(#[trigger] rows[i]) == numbers(list[i]->Array_0),
        forall|i: int|
            0 <= i < list.len() && !is_row(#[trigger] list[i]) && (forall|j: int| 0 <= j < i ==> is_row(#[trigger] list[j]))
                ==> rows_in(list) == Err::<Seq<Seq<Real>>, ApiErrorV>(
                if list[i] is Array {
                    ApiErrorV::ExpectedNumber
                } else {
                    ApiErrorV::ExpectedArrays
                },
            ),
    decreases list.len(),
{
    if list.len() > 0 {
        let rest = list.drop_last();
        law_rows_read(rest);
        let last = list.last();
        assert(last == list[list.len() - 1]);
        if last is Array {
            law_numbers_read(last->Array_0);
        }
        assert(forall|i: int| 0 <= i < rest.len() ==> rest[i] == list[i]);
        if rows_in(rest) is Ok {
            assert forall|i: int| 0 <= i < list.len() - 1 implies is_row(#[trigger] list[i]) by {
                assert(is_row(rest[i]));
            }
            if is_row(last) {
                let rows = rows_in(list)->Ok_0;
                assert forall|i: int| 0 <= i < list.len() implies Some(#[trigger] rows[i]) == numbers(list[i]->Array_0) by {
                    if i < rest.len() {
                        assert(rows[i] == rows_in(rest)->Ok_0[i]);
                    }
                }
            }
        } else {
            let bad = choose|i: int| 0 <= i < rest.len() && !is_row(#[trigger] rest[i]);
            assert(!is_row(list[bad]));
        }
        assert forall|i: int|
            0 <= i < list.len() && !is_row(#[trigger] list[i]) && (forall|j: int| 0 <= j < i ==> is_row(
                #[trigger] list[j],
            )) implies rows_in(list) == Err::<Seq<Seq<Real>>, ApiErrorV>(
            if list[i] is Array {
                ApiErrorV::ExpectedNumber
            } else {
                ApiErrorV::ExpectedArrays
            },
        ) by {
            if i < rest.len() {
                assert(!is_row(rest[i]));
                assert forall|j: int| 0 <= j < i implies is_row(#[trigger] rest[j]) by {
                    assert(is_row(list[j]));
                }
            } else {
                assert forall|j: int| 0 <= j < rest.len() implies is_row(#[trigger] rest[j]) by {
                    assert(is_row(list[j]));
                }
            }
        }
    }
}

// ---------------------------------------------------------------------------------------------
// Vectors of a point

/// A vector that is a plain list of numbers, or a list of rows, is read as it is; the first row
/// stands for the rest. No vector at all is no fault, and anything else is one.
pub proof fn law_vectors_read(list: Seq<JsonV>)
    ensures
        vectors_in(None) == Ok::<Option<ParsedVectorV>, ApiErrorV>(None),
        vectors_in(Some(JsonV::Null)) == Ok::<Option<ParsedVectorV>, ApiErrorV>(None),
        list.len() > 0 && is_row(JsonV::Array(list)) ==> vectors_in(Some(JsonV::Array(list))) == Ok::<
            Option<ParsedVectorV>,
            ApiErrorV,
        >(
            Some(
                ParsedVectorV { primary: numbers(list)->0, multivector: None, sparse_vectors: Seq::empty() },
            ),
        ),
        list.len() > 0 && list[0] is Number && !is_row(JsonV::Array(list)) ==> vectors_in(Some(JsonV::Array(list)))
            == Err::<Option<ParsedVectorV>, ApiErrorV>(ApiErrorV::ExpectedNumber),
        list.len() > 0 && list[0] is Array && rows_in(list) is Ok ==> vectors_in(Some(JsonV::Array(list))) == Ok::<
            Option<ParsedVectorV>,
            ApiErrorV,
        >(
            Some(
                ParsedVectorV {
                    primary: rows_in(list)->Ok_0[0],
                    multivector: Some(rows_in(list)->Ok_0),
                    sparse_vectors: Seq::empty(),
                },
            ),
        ),
        list.len() > 0 && !(list[0] is Number) && !(list[0] is Array) ==> vectors_in(Some(JsonV::Array(list))) is Err,
        list.len() > 0 && list[0] is Array && rows_in(list) is Err ==> vectors_in(Some(JsonV::Array(list))) is Err,
        list.len() == 0 ==> vectors_in(Some(JsonV::Array(list))) == Ok::<Option<ParsedVectorV>, ApiErrorV>(None),
{
    let value = JsonV::Array(list);
    if list.len() > 0 && is_row(value) {
        assert(value->Array_0[0] is Number);
        assert forall|i: int| 0 <= i < list.len() implies (#[trigger] list[i]) is Number by {
            assert(value->Array_0[i] is Number);
        }
    }
    if list.len() > 0 && list[0] is Number && !is_row(value) {
        let i = choose|i: int| 0 <= i < value->Array_0.len() && !((#[trigger] value->Array_0[i]) is Number);
        assert(!(list[i] is Number));
    }
}

/// An object holds named vectors; a text, a number and a truth value hold none.
pub proof fn law_named_vectors_read(members: Seq<(Seq<char>, JsonV)>, value: JsonV)
    ensures
        (vectors_in(Some(JsonV::Object(members))) is Ok) == (named_vectors(members) is Ok),
        named_vectors(members) matches Ok(v) ==> vectors_in(Some(JsonV::Object(members))) == Ok::<
            Option<ParsedVectorV>,
            ApiErrorV,
        >(Some(v)),
        value is Text || value is Number || value is Bool ==> vectors_in(Some(value)) is Err,
{
}

/// The sparse vectors among named vectors are all members that have indices and values, under
/// their names, in order.
pub proof fn law_named_sparse_read(members: Seq<(Seq<char>, JsonV)>)
    requires
        named_vectors(members) is Ok,
    ensures
        named_vectors(members)->Ok_0.sparse_vectors == members.filter_map(
            |m: (Seq<char>, JsonV)|
                if m.1 is Object && sparse_in(m.1) is Some {
                    Some((m.0, sparse_in(m.1)->0))
                } else {
                    None
                },
        ),
    decreases members.len(),
{
    reveal(Seq::filter_map);
    let f = |m: (Seq<char>, JsonV)|
        if m.1 is Object && sparse_in(m.1) is Some {
            Some((m.0, sparse_in(m.1)->0))
        } else {
            None
        };
    if members.len() > 0 {
        law_named_sparse_read(members.drop_last());
        let rest = members.drop_last().filter_map(f);
        if let Some(x) = f(members.last()) {
            assert(rest.push(x) =~= rest + seq![x]);
        }
    } else {
        assert(named_vectors(members)->Ok_0.sparse_vectors =~= members.filter_map(f));
    }
}

/// A sparse vector has all indices and values that can be read; without a single one of either it
/// is none.
pub proof fn law_sparse_read(value: JsonV)
    ensures
        sparse_in(value) == if value.get_array("indices"@) is Some && value.get_array("values"@) is Some && indices_among(
            value.get_array("indices"@)->0,
        ).len() > 0 && numbers_among(value.get_array("values"@)->0).len() > 0 {
            Some(
                SparseVectorV {
                    indices: indices_among(value.get_array("indices"@)->0),
                    values: numbers_among(value.get_array("values"@)->0),
                },
            )
        } else {
            None
        },
{
}

/// Adding a named vector that is dense, or a list of rows, replaces the one before; a sparse one
/// leaves it, and so does what is no vector. A point without a dense vector has one zero.
pub proof fn law_last_dense_vector_counts(members: Seq<(Seq<char>, JsonV)>, name: Seq<char>, value: JsonV)
    requires
        named_vectors(members) is Ok,
    ensures
        members.len() == 0 ==> named_vectors(members)->Ok_0.primary.len() == 1 && named_vectors(
            members,
        )->Ok_0.primary[0].bits == 0 && named_vectors(members)->Ok_0.multivector is None,
        value is Array && value->Array_0.len() > 0 && value->Array_0[0] is Number ==> match named_vectors(
            members.push((name, value)),
        ) {
            Ok(v) => is_row(value) && Some(v.primary) == numbers(value->Array_0) && v.multivector == named_vectors(
                members,
            )->Ok_0.multivector,
            Err(e) => !is_row(value) && e == ApiErrorV::ExpectedNumber,
        },
        value is Array && value->Array_0.len() > 0 && value->Array_0[0] is Array ==> match named_vectors(
            members.push((name, value)),
        ) {
            Ok(v) => rows_in(value->Array_0) == Ok::<Seq<Seq<Real>>, ApiErrorV>(v.multivector->0) && v.multivector is Some
                && v.primary == v.multivector->0[0],
            Err(e) => rows_in(value->Array_0) == Err::<Seq<Seq<Real>>, ApiErrorV>(e),
        },
        !(value is Array) ==> named_vectors(members.push((name, value))) is Ok && named_vectors(
            members.push((name, value)),
        )->Ok_0.primary == named_vectors(members)->Ok_0.primary && named_vectors(
            members.push((name, value)),
        )->Ok_0.multivector == named_vectors(members)->Ok_0.multivector,
{
    let more = members.push((name, value));
    assert(more.drop_last() =~= members);
    if value is Array {
        law_numbers_read(value->Array_0);
    }
}

// ---------------------------------------------------------------------------------------------
// Points

/// A point that is asked for has the identifier and the payload given; it begins at version zero.
/// It has the dense vector given, or the first of the rows of its multivector, or none.
pub proof fn law_requested_point(id: PointIdV, vector: Option<ParsedVectorV>, payload: Option<JsonV>)
    ensures
        requested_point(id, vector, payload).id == id,
        requested_point(id, vector, payload).payload == payload,
        requested_point(id, vector, payload).version == 0,
        vector is None ==> requested_point(id, vector, payload).vector.len() == 0 && requested_point(
            id,
            vector,
            payload,
        ).multivector is None && requested_point(id, vector, payload).sparse_vectors.len() == 0,
        vector matches Some(v) ==> (v.multivector is Some && is_multivector(v.multivector->0)) ==> requested_point(
            id,
            vector,
            payload,
        ).multivector == v.multivector && requested_point(id, vector, payload).vector == v.multivector->0[0],
        vector matches Some(v) ==> !(v.multivector is Some && is_multivector(v.multivector->0)) ==> requested_point(
            id,
            vector,
            payload,
        ).multivector is None && requested_point(id, vector, payload).vector == v.primary,
{
}

/// The sparse vectors of a point are those given, under each name the one given last.
pub proof fn law_requested_sparse(
    start: Seq<(Seq<char>, SparseVectorV)>,
    more: Seq<(Seq<char>, SparseVectorV)>,
    name: Seq<char>,
)
    ensures
        lookup(put_sparse(start, more), name) == match lookup(more, name) {
            Some(v) => Some(v),
            None => lookup(start, name),
        },
    decreases more.len(),
{
    if more.len() > 0 {
        let rest = more.drop_last();
        let earlier = put_sparse(start, rest);
        law_requested_sparse(start, rest, name);
        if more.last().0 == name {
            law_put_then_lookup(earlier, name, more.last().1);
            assert(lookup(more, name) == Some(more.last().1));
        } else {
            law_put_leaves_others(earlier, more.last().0, more.last().1, name);
            lemma_last_at(rest, name);
            assert(lookup(more, name) == lookup(rest, name));
        }
    }
}

/// The sparse vectors of a request end up in the point.
pub proof fn law_requested_sparse_kept(id: PointIdV, v: ParsedVectorV, payload: Option<JsonV>, name: Seq<char>)
    ensures
        lookup(requested_point(id, Some(v), payload).sparse_vectors, name) == lookup(v.sparse_vectors, name),
{
    let none: Seq<(Seq<char>, SparseVectorV)> = Seq::empty();
    law_requested_sparse(none, v.sparse_vectors, name);
}

/// A text and a natural number are identifiers, and nothing else is; with one that is none no
/// point of a request is read, otherwise all are.
pub proof fn law_requested_points(reqs: Seq<PointRequestV>, s: Seq<char>, n: NumberV)
    ensures
        requested_id(JsonV::Text(s)) == Some(PointIdV::String(s)),
        requested_id(JsonV::Number(n)) == match n.natural() {
            Some(u) => Some(PointIdV::Integer(u)),
            None => None,
        },
        requested_id(JsonV::Null) is None,
        (requested_points(reqs) is Some) == forall|i: int|
            0 <= i < reqs.len() ==> requested_id((#[trigger] reqs[i]).id) is Some,
        requested_points(reqs) matches Some(points) ==> points.len() == reqs.len() && forall|i: int|
            0 <= i < reqs.len() ==> #[trigger] points[i] == requested_point(
                requested_id(reqs[i].id)->0,
                reqs[i].vector,
                reqs[i].payload,
            ),
{
}

/// A point of a batch operation needs an identifier and a vector; it has the payload given. A number
/// that is no natural one counts as zero.
pub proof fn law_batch_point(value: JsonV)
    ensures
        (point_in(value) is Some) == (value.get("id"@) is Some && (value.get("id"@)->0 is Text || value.get("id"@)->0 is Number)
            && value.get_array("vector"@) is Some && numbers(value.get_array("vector"@)->0) is Some),
        point_in(value) matches Some(p) ==> {
            &&& p.vector == numbers(value.get_array("vector"@)->0)->0
            &&& p.payload == value.get("payload"@)
            &&& p.version == 0
            &&& p.multivector is None
            &&& p.sparse_vectors.len() == 0
            &&& value.get("id"@)->0 matches JsonV::Text(s) ==> p.id == PointIdV::String(s)
            &&& value.get("id"@)->0 matches JsonV::Number(n) ==> (n.natural() matches Some(u) ==> p.id
                == PointIdV::Integer(u))
            &&& value.get("id"@)->0 matches JsonV::Number(n) ==> (n.natural() is None ==> p.id == PointIdV::Integer(0))
        },
{
}

} // verus!
