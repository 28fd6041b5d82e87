//! What filters let through.

use vstd::prelude::*;
use crate::filter::{
    bounds, clauses, conditions_under, equals_each, field_condition, field_conditions, filter_condition,
    law_filter_parts, law_range_keeps_all_bounds, lemma_holds_and, lemma_holds_or, pass_json,
    Filter, FilterConditionV, PayloadFilter,
};
use crate::ieee::Double;
use crate::json::{JsonV, NumberV};
use crate::matching::{
    condition_matches, element_meets, element_meets_all, element_meets_some, element_passes,
    equal_or_member, filter_matches, follow, gather, held_in, identifies, lemma_meets,
    lemma_member_array, lemma_member_is_held, nested_value,
    some_element_passes,
};
use crate::point::PointV;
use crate::scoring::pass_of;
use crate::text::{any_word_in, first_brackets, first_of, without_leading};

verus! {

// ---------------------------------------------------------------------------------------------
// Conditions on payload fields

/// A condition that a point is asked to meet at a field: no list of identifiers and no nested
/// filter stands in it.
pub open spec fn on_field(cond: JsonV, key: Seq<char>) -> bool {
    &&& cond is Object
    &&& cond.get_array("has_id"@) is None
    &&& cond.get_object("nested"@) is None
    &&& cond.get_text("key"@) == Some(key)
}

/// The bounds of a range are numbers that can be compared.
pub open spec fn comparable(range: JsonV) -> bool {
    &&& range.get_number("gt"@) matches Some(b) ==> !b.double.nan()
    &&& range.get_number("gte"@) matches Some(b) ==> !b.double.nan()
    &&& range.get_number("lt"@) matches Some(b) ==> !b.double.nan()
    &&& range.get_number("lte"@) matches Some(b) ==> !b.double.nan()
}

/// A number is inside every bound that a range gives: above `gt`, not below `gte`, below `lt` and
/// not above `lte`.
pub open spec fn inside_bounds(n: NumberV, range: JsonV) -> bool {
    &&& range.get_number("gt"@) matches Some(b) ==> b.double.less(n.double)
    &&& range.get_number("gte"@) matches Some(b) ==> b.double.at_most(n.double)
    &&& range.get_number("lt"@) matches Some(b) ==> n.double.less(b.double)
    &&& range.get_number("lte"@) matches Some(b) ==> n.double.at_most(b.double)
}

/// A point meets a range exactly if it has a number at the field that is inside every bound given.
pub proof fn law_range_condition(point: PointV, cond: JsonV, key: Seq<char>, range: JsonV)
    requires
        on_field(cond, key),
        cond.get_object("match"@) is None,
        cond.get_object("range"@) == Some(range),
        comparable(range),
        nested_value(point.payload, key) matches Some(JsonV::Number(n)) ==> !n.double.nan(),
    ensures
        condition_matches(point, cond) == match nested_value(point.payload, key) {
            Some(JsonV::Number(n)) => inside_bounds(n, range),
            _ => false,
        },
{
}

/// A point that a filter with a range under `must` lets through has a number inside the bounds.
pub proof fn law_range_is_kept(point: PointV, filter: JsonV, list: Seq<JsonV>, i: int, key: Seq<char>, range: JsonV)
    requires
        filter is Object,
        filter.get_array("must"@) == Some(list),
        0 <= i < list.len(),
        on_field(list[i], key),
        list[i].get_object("match"@) is None,
        list[i].get_object("range"@) == Some(range),
        comparable(range),
        nested_value(point.payload, key) matches Some(JsonV::Number(n)) ==> !n.double.nan(),
        filter_matches(point, filter),
    ensures
        nested_value(point.payload, key) matches Some(JsonV::Number(n)) && inside_bounds(n, range),
{
    reveal_with_fuel(filter_matches, 2);
    lemma_meets(point, list);
    law_range_condition(point, list[i], key, range);
    assert(condition_matches(point, list[i]));
}

/// A point meets `match` with a value exactly if what it has at the field equals the value.
pub proof fn law_match_value_condition(point: PointV, cond: JsonV, key: Seq<char>, m: JsonV, value: JsonV)
    requires
        on_field(cond, key),
        cond.get_object("match"@) == Some(m),
        m.get("value"@) == Some(value),
    ensures
        condition_matches(point, cond) == match nested_value(point.payload, key) {
            Some(v) => equal_or_member(v, value),
            None => false,
        },
{
}

/// A point meets `match` with several values exactly if what it has at the field equals one of
/// them.
pub proof fn law_match_any_condition(point: PointV, cond: JsonV, key: Seq<char>, m: JsonV, any: Seq<JsonV>)
    requires
        on_field(cond, key),
        cond.get_object("match"@) == Some(m),
        m.get("value"@) is None,
        m.get_array("any"@) == Some(any),
    ensures
        condition_matches(point, cond) == (nested_value(point.payload, key) is Some && exists|i: int|
            0 <= i < any.len() && equal_or_member(nested_value(point.payload, key)->0, #[trigger] any[i])),
{
}

/// A point meets `match` with a text exactly if it has a text at the field in which a word of the
/// text stands.
pub proof fn law_match_text_condition(point: PointV, cond: JsonV, key: Seq<char>, m: JsonV, text: Seq<char>)
    requires
        on_field(cond, key),
        cond.get_object("match"@) == Some(m),
        m.get("value"@) is None,
        m.get_array("any"@) is None,
        m.get_text("text"@) == Some(text),
    ensures
        condition_matches(point, cond) == (nested_value(point.payload, key) matches Some(JsonV::Text(s)) && any_word_in(
            text,
            s,
        )),
{
}

/// A point meets a list of identifiers exactly if one of them is its own, as a text or as a number
/// written out; the list counts before anything else in the condition.
pub proof fn law_has_id_condition(point: PointV, cond: JsonV, ids: Seq<JsonV>)
    requires
        cond is Object,
        cond.get_array("has_id"@) == Some(ids),
    ensures
        condition_matches(point, cond) == exists|i: int|
            0 <= i < ids.len() && match #[trigger] ids[i] {
                JsonV::Text(s) => s == point.key(),
                JsonV::Number(n) => n.text() == point.key(),
                _ => false,
            },
{
    if condition_matches(point, cond) {
        let i = choose|i: int| 0 <= i < ids.len() && identifies(#[trigger] ids[i], point.key());
        assert(match ids[i] {
            JsonV::Text(s) => s == point.key(),
            JsonV::Number(n) => n.text() == point.key(),
            _ => false,
        });
    }
    if exists|i: int|
        0 <= i < ids.len() && match #[trigger] ids[i] {
            JsonV::Text(s) => s == point.key(),
            JsonV::Number(n) => n.text() == point.key(),
            _ => false,
        } {
        let i = choose|i: int|
            0 <= i < ids.len() && match #[trigger] ids[i] {
                JsonV::Text(s) => s == point.key(),
                JsonV::Number(n) => n.text() == point.key(),
                _ => false,
            };
        assert(identifies(ids[i], point.key()));
    }
}

/// What an element of an array must have to meet a condition of a nested filter: at the member
/// `key`, a value that equals the one asked for.
pub open spec fn element_has(element: JsonV, cond: JsonV) -> bool {
    &&& cond.get_text("key"@) is Some
    &&& cond.get_object("match"@) is Some
    &&& cond.get_object("match"@)->0.get("value"@) is Some
    &&& element.get(cond.get_text("key"@)->0) is Some
    &&& equal_or_member(
        element.get(cond.get_text("key"@)->0)->0,
        cond.get_object("match"@)->0.get("value"@)->0,
    )
}

/// An element has all of `must`, something of `should` if that lists anything, and nothing of
/// `must_not`.
pub open spec fn element_fits(element: JsonV, must: Seq<JsonV>, should: Seq<JsonV>, must_not: Seq<JsonV>) -> bool {
    &&& forall|i: int| 0 <= i < must.len() ==> element_has(element, #[trigger] must[i])
    &&& should.len() == 0 || exists|i: int| 0 <= i < should.len() && element_has(element, #[trigger] should[i])
    &&& forall|i: int| 0 <= i < must_not.len() ==> !element_has(element, #[trigger] must_not[i])
}

proof fn lemma_element_lists(element: JsonV, list: Seq<JsonV>)
    ensures
        element_meets_all(element, list) == forall|i: int| 0 <= i < list.len() ==> element_has(element, #[trigger] list[i]),
        element_meets_some(element, list) == exists|i: int| 0 <= i < list.len() && element_has(element, #[trigger] list[i]),
{
    assert forall|c: JsonV| #[trigger] element_meets(element, c) == element_has(element, c) by {}
    if element_meets_all(element, list) {
        assert forall|i: int| 0 <= i < list.len() implies element_has(element, #[trigger] list[i]) by {
            assert(element_meets(element, list[i]));
        }
    }
    if element_meets_some(element, list) {
        let i = choose|i: int| 0 <= i < list.len() && element_meets(element, #[trigger] list[i]);
        assert(element_has(element, list[i]));
    }
    if exists|i: int| 0 <= i < list.len() && element_has(element, #[trigger] list[i]) {
        let i = choose|i: int| 0 <= i < list.len() && element_has(element, #[trigger] list[i]);
        assert(element_meets(element, list[i]));
    }
}

/// A point meets a nested filter exactly if one and the same element of the array at `key` has all
/// that is listed under `must`, something of what is listed under `should`, and nothing of what is
/// listed under `must_not`.
pub proof fn law_nested_condition(
    point: PointV,
    cond: JsonV,
    nested: JsonV,
    key: Seq<char>,
    filter: JsonV,
    elements: Seq<JsonV>,
    must: Seq<JsonV>,
    should: Seq<JsonV>,
    must_not: Seq<JsonV>,
)
    requires
        cond is Object,
        cond.get_array("has_id"@) is None,
        cond.get_object("nested"@) == Some(nested),
        nested.get_text("key"@) == Some(key),
        nested.get("filter"@) == Some(filter),
        filter is Object,
        point.payload is Some,
        point.payload->0.get_array(key) == Some(elements),
        filter.get_array("must"@) == Some(must) || (filter.get_array("must"@) is None && must.len() == 0),
        filter.get_array("should"@) == Some(should) || (filter.get_array("should"@) is None && should.len() == 0),
        filter.get_array("must_not"@) == Some(must_not) || (filter.get_array("must_not"@) is None && must_not.len() == 0),
    ensures
        condition_matches(point, cond) == exists|e: int|
            0 <= e < elements.len() && element_fits(#[trigger] elements[e], must, should, must_not),
{
    assert forall|e: int| 0 <= e < elements.len() implies #[trigger] element_passes(elements[e], filter) == element_fits(
        elements[e],
        must,
        should,
        must_not,
    ) by {
        lemma_element_lists(elements[e], must);
        lemma_element_lists(elements[e], should);
        lemma_element_lists(elements[e], must_not);
    }
    assert(condition_matches(point, cond) == some_element_passes(elements, filter));
    if condition_matches(point, cond) {
        let e = choose|e: int| 0 <= e < elements.len() && element_passes(#[trigger] elements[e], filter);
        assert(element_fits(elements[e], must, should, must_not));
    }
    if exists|e: int| 0 <= e < elements.len() && element_fits(#[trigger] elements[e], must, should, must_not) {
        let e = choose|e: int| 0 <= e < elements.len() && element_fits(#[trigger] elements[e], must, should, must_not);
        assert(element_passes(elements[e], filter));
    }
}

/// Without the array that a nested filter speaks of, no point meets it.
pub proof fn law_nested_needs_array(point: PointV, cond: JsonV, nested: JsonV, key: Seq<char>)
    requires
        cond is Object,
        cond.get_array("has_id"@) is None,
        cond.get_object("nested"@) == Some(nested),
        nested.get_text("key"@) == Some(key),
        point.payload is None || point.payload->0.get_array(key) is None,
    ensures
        !condition_matches(point, cond),
{
}

/// A condition without a field, a list of identifiers or a nested filter is a filter of its own if
/// it has one of the parts of a filter; else no point meets it, nor a condition that is no object.
pub proof fn law_inner_filter_condition(point: PointV, cond: JsonV)
    requires
        cond.get_array("has_id"@) is None,
        cond.get_object("nested"@) is None,
        cond.get_text("key"@) is None,
    ensures
        condition_matches(point, cond) == (cond is Object && (cond.get("must"@) is Some || cond.get("should"@) is Some
            || cond.get("must_not"@) is Some) && filter_matches(point, cond)),
{
    reveal_with_fuel(filter_matches, 2);
    reveal_with_fuel(condition_matches, 2);
}

/// A filter lets through the points that meet every condition under `must`, one under `should` if
/// there are any, and none under `must_not`.
pub proof fn law_filter_meaning(
    point: PointV,
    filter: JsonV,
    must: Seq<JsonV>,
    should: Seq<JsonV>,
    must_not: Seq<JsonV>,
)
    requires
        filter is Object,
        filter.get_array("must"@) == Some(must) || (filter.get_array("must"@) is None && must.len() == 0),
        filter.get_array("should"@) == Some(should) || (filter.get_array("should"@) is None && should.len() == 0),
        filter.get_array("must_not"@) == Some(must_not) || (filter.get_array("must_not"@) is None && must_not.len() == 0),
    ensures
        filter_matches(point, filter) == {
            &&& forall|i: int| 0 <= i < must.len() ==> condition_matches(point, #[trigger] must[i])
            &&& should.len() == 0 || exists|i: int| 0 <= i < should.len() && condition_matches(point, #[trigger] should[i])
            &&& forall|i: int| 0 <= i < must_not.len() ==> !condition_matches(point, #[trigger] must_not[i])
        },
{
    reveal_with_fuel(filter_matches, 2);
    lemma_meets(point, must);
    lemma_meets(point, should);
    lemma_meets(point, must_not);
}

/// Texts are equal if they are one text, truth values if they are one, and nothing equals what is
/// of another kind, but for arrays.
pub proof fn law_equality_by_kind(s: Seq<char>, t: Seq<char>, a: bool, b: bool, x: NumberV)
    ensures
        equal_or_member(JsonV::Text(s), JsonV::Text(t)) == (s == t),
        equal_or_member(JsonV::Bool(a), JsonV::Bool(b)) == (a == b),
        equal_or_member(JsonV::Null, JsonV::Null),
        !equal_or_member(JsonV::Number(x), JsonV::Text(s)),
        !equal_or_member(JsonV::Number(x), JsonV::Bool(a)),
        !equal_or_member(JsonV::Bool(a), JsonV::Text(s)),
        !equal_or_member(JsonV::Bool(a), JsonV::Number(x)),
        !equal_or_member(JsonV::Null, JsonV::Text(s)),
        !equal_or_member(JsonV::Null, JsonV::Bool(a)),
        !equal_or_member(JsonV::Null, JsonV::Number(x)),
{
}

/// Numbers are equal if they are one number in double precision, however they are written; an object
/// equals an object with the same members, and nothing else.
pub proof fn law_numbers_and_objects_equal(
    x: NumberV,
    y: NumberV,
    e: Seq<(Seq<char>, JsonV)>,
    f: Seq<(Seq<char>, JsonV)>,
    other: JsonV,
)
    ensures
        equal_or_member(JsonV::Number(x), JsonV::Number(y)) == x.double.same(y.double),
        equal_or_member(JsonV::Object(e), JsonV::Object(f)) == JsonV::Object(e).same(JsonV::Object(f)),
        !(other is Object) && !(other is Array) ==> !equal_or_member(JsonV::Object(e), other) && !equal_or_member(
            other,
            JsonV::Object(e),
        ),
{
}

/// An array equals a value exactly if one of its members does, on either side.
pub proof fn law_arrays_hold(list: Seq<JsonV>, value: JsonV)
    ensures
        equal_or_member(JsonV::Array(list), value) == exists|i: int|
            0 <= i < list.len() && equal_or_member(#[trigger] list[i], value),
        !(value is Array) ==> equal_or_member(value, JsonV::Array(list)) == exists|i: int|
            0 <= i < list.len() && equal_or_member(#[trigger] list[i], value),
{
    lemma_member_array(list, value);
    if !(value is Array) {
        let a = JsonV::Array(list);
        assert forall|i: int| 0 <= i < list.len() implies equal_or_member(#[trigger] list[i], value) == held_in(
            list[i],
            value,
        ) by {
            lemma_member_is_held(list[i], value);
        }
        if equal_or_member(value, a) {
            let i = choose|i: int| 0 <= i < a->Array_0.len() && held_in(#[trigger] a->Array_0[i], value);
            assert(equal_or_member(list[i], value));
        }
        if exists|i: int| 0 <= i < list.len() && equal_or_member(#[trigger] list[i], value) {
            let i = choose|i: int| 0 <= i < list.len() && equal_or_member(#[trigger] list[i], value);
            assert(held_in(a->Array_0[i], value));
        }
    }
}

/// A condition on a field that asks for neither a value, nor one of several, nor a text counts by its
/// range; without a range either, no point meets it.
pub proof fn law_field_without_match(point: PointV, cond: JsonV, key: Seq<char>, range: JsonV)
    requires
        on_field(cond, key),
        cond.get_object("match"@) matches Some(m) ==> m.get("value"@) is None && m.get_array("any"@) is None
            && m.get_text("text"@) is None,
    ensures
        cond.get_object("range"@) is None ==> !condition_matches(point, cond),
        cond.get_object("range"@) == Some(range) && comparable(range) && (nested_value(point.payload, key) matches Some(
            JsonV::Number(n),
        ) ==> !n.double.nan()) ==> condition_matches(point, cond) == (nested_value(point.payload, key) matches Some(
            JsonV::Number(n),
        ) && inside_bounds(n, range)),
{
}

// ---------------------------------------------------------------------------------------------
// Paths into a payload

/// Where a character first stands: nowhere before.
pub proof fn law_first_of(s: Seq<char>, c: char)
    ensures
        match first_of(s, c) {
            Some(i) => 0 <= i < s.len() && s[i] == c && forall|j: int| 0 <= j < i ==> #[trigger] s[j] != c,
            None => forall|j: int| 0 <= j < s.len() ==> #[trigger] s[j] != c,
        },
    decreases s.len(),
{
    if s.len() > 0 && s[0] != c {
        let rest = s.skip(1);
        law_first_of(rest, c);
        match first_of(rest, c) {
            Some(i) => {
                assert(rest[i] == s[i + 1]);
                assert forall|j: int| 0 <= j < i + 1 implies #[trigger] s[j] != c by {
                    if j > 0 {
                        assert(rest[j - 1] == s[j]);
                    }
                }
            },
            None => {
                assert forall|j: int| 0 <= j < s.len() implies #[trigger] s[j] != c by {
                    if j > 0 {
                        assert(rest[j - 1] == s[j]);
                    }
                }
            },
        }
    }
}

/// Brackets stand at a place of a text.
pub open spec fn brackets_at(s: Seq<char>, i: int) -> bool {
    0 <= i && i + 1 < s.len() && s[i] == '[' && s[i + 1] == ']'
}

/// Where brackets first stand: nowhere before.
pub proof fn law_first_brackets(s: Seq<char>)
    ensures
        match first_brackets(s) {
            Some(i) => brackets_at(s, i) && forall|j: int| j < i ==> !#[trigger] brackets_at(s, j),
            None => forall|j: int| !#[trigger] brackets_at(s, j),
        },
    decreases s.len(),
{
    if s.len() >= 2 && !(s[0] == '[' && s[1] == ']') {
        let rest = s.skip(1);
        law_first_brackets(rest);
        assert forall|j: int| #[trigger] brackets_at(s, j) implies j > 0 && brackets_at(rest, j - 1) by {}
        if let Some(i) = first_brackets(rest) {
            assert(brackets_at(s, i + 1));
        }
    }
}

/// A path without dots and brackets is the name of a member of the payload.
pub proof fn law_plain_path(payload: JsonV, path: Seq<char>)
    requires
        forall|j: int| 0 <= j < path.len() ==> #[trigger] path[j] != '.',
        forall|j: int| !#[trigger] brackets_at(path, j),
    ensures
        nested_value(Some(payload), path) == payload.get(path),
        nested_value(None, path) is None,
{
    law_first_of(path, '.');
    law_first_brackets(path);
}

/// A dot leads from a member into its own members.
pub proof fn law_dotted_path(payload: JsonV, head: Seq<char>, tail: Seq<char>)
    requires
        forall|j: int| 0 <= j < head.len() ==> #[trigger] head[j] != '.',
        forall|j: int| !#[trigger] brackets_at(head + seq!['.'] + tail, j),
    ensures
        nested_value(Some(payload), head + seq!['.'] + tail) == match payload.get(head) {
            Some(v) => nested_value(Some(v), tail),
            None => None,
        },
{
    let path = head + seq!['.'] + tail;
    law_first_of(path, '.');
    law_first_brackets(path);
    law_first_brackets(tail);
    assert(path[head.len() as int] == '.');
    assert forall|j: int| 0 <= j < head.len() implies #[trigger] path[j] != '.' by {
        assert(path[j] == head[j]);
    }
    let i = first_of(path, '.')->0;
    assert(i == head.len());
    assert(path.take(i) =~= head);
    assert(path.skip(i + 1) =~= tail);
    assert forall|j: int| !#[trigger] brackets_at(tail, j) by {
        if brackets_at(tail, j) {
            assert(path[head.len() + 1 + j] == tail[j]);
            assert(path[head.len() + 1 + j + 1] == tail[j + 1]);
            assert(brackets_at(path, head.len() + 1 + j));
        }
    }
    reveal_with_fuel(follow, 2);
}

/// The values that the elements of an array have under a name, those that have one.
pub proof fn law_gathered(list: Seq<JsonV>, name: Seq<char>)
    ensures
        gather(list, name) == if name.len() == 0 {
            list
        } else {
            list.filter_map(|e: JsonV| e.get(name))
        },
    decreases list.len(),
{
    reveal(Seq::filter_map);
    if list.len() > 0 {
        law_gathered(list.drop_last(), name);
        if name.len() == 0 {
            assert(list.drop_last().push(list.last()) =~= list);
        } else if let Some(v) = list.last().get(name) {
            let rest = list.drop_last().filter_map(|e: JsonV| e.get(name));
            assert(rest.push(v) =~= rest + seq![v]);
        }
    } else {
        assert(gather(list, name) =~= list);
    }
}

/// Brackets lead to the elements of an array: to all values that they have under the name behind
/// the brackets, or to the elements themselves; to nothing if there is none.
pub proof fn law_bracket_path(payload: JsonV, array: Seq<char>, name: Seq<char>)
    requires
        forall|j: int| !#[trigger] brackets_at(array, j),
        forall|j: int| !#[trigger] brackets_at(name, j),
        name.len() > 0 ==> name[0] != '.',
    ensures
        nested_value(Some(payload), array + seq!['[', ']', '.'] + name) == match payload.get_array(array) {
            Some(list) => {
                let values = if name.len() == 0 {
                    list
                } else {
                    list.filter_map(|e: JsonV| e.get(name))
                };
                if values.len() > 0 {
                    Some(JsonV::Array(values))
                } else {
                    None
                }
            },
            None => None,
        },
{
    let path = array + seq!['[', ']', '.'] + name;
    let at = array.len() as int;
    law_first_brackets(path);
    assert(path[at] == '[' && path[at + 1] == ']' && path[at + 2] == '.');
    assert(brackets_at(path, at));
    assert forall|j: int| j < at implies !#[trigger] brackets_at(path, j) by {
        if brackets_at(path, j) {
            assert(path[j] == array[j]);
            if j + 1 < at {
                assert(path[j + 1] == array[j + 1]);
                assert(brackets_at(array, j));
            }
        }
    }
    assert(first_brackets(path) == Some(at));
    assert(path.take(at) =~= array);
    let rest = path.skip(at + 2);
    assert(rest =~= seq!['.'] + name);
    law_first_brackets(rest);
    assert forall|j: int| !#[trigger] brackets_at(rest, j) by {
        if brackets_at(rest, j) {
            if j > 0 {
                assert(rest[j] == name[j - 1] && rest[j + 1] == name[j]);
                assert(brackets_at(name, j - 1));
            }
        }
    }
    reveal_with_fuel(without_leading, 3);
    assert(rest.skip(1) =~= name);
    assert(without_leading(rest, '.') == name);
    if let Some(list) = payload.get_array(array) {
        law_gathered(list, name);
    }
}

// ---------------------------------------------------------------------------------------------
// Conditions on what a search may return

/// What each condition asks of a payload.
pub proof fn law_conditions_mean(field: Seq<char>, value: JsonV, bound: Double, c: FilterConditionV, payload: JsonV)
    ensures
        (FilterConditionV::Equals { field, value }).holds(payload) == (payload.get(field) matches Some(v) && v.same(value)),
        (FilterConditionV::NotEquals { field, value }).holds(payload) == !(payload.get(field) matches Some(v) && v.same(
            value,
        )),
        (FilterConditionV::GreaterThan { field, value: bound }).holds(payload) == (payload.get_number(field) matches Some(
            n,
        ) && bound.less(n.double)),
        (FilterConditionV::GreaterEqual { field, value: bound }).holds(payload) == (payload.get_number(field) matches Some(
            n,
        ) && bound.at_most(n.double)),
        (FilterConditionV::LessThan { field, value: bound }).holds(payload) == (payload.get_number(field) matches Some(n)
            && n.double.less(bound)),
        (FilterConditionV::LessEqual { field, value: bound }).holds(payload) == (payload.get_number(field) matches Some(n)
            && n.double.at_most(bound)),
        FilterConditionV::Not(Box::new(c)).holds(payload) == !c.holds(payload),
{
    reveal_with_fuel(FilterConditionV::holds, 2);
}

/// Conditions that must hold together hold if each does, alternatives if one does.
pub proof fn law_conditions_combine(list: Seq<FilterConditionV>, payload: JsonV)
    ensures
        FilterConditionV::And(list).holds(payload) == forall|i: int|
            0 <= i < list.len() ==> (#[trigger] list[i]).holds(payload),
        FilterConditionV::Or(list).holds(payload) == exists|i: int|
            0 <= i < list.len() && (#[trigger] list[i]).holds(payload),
{
    lemma_holds_and(list, payload);
    lemma_holds_or(list, payload);
}

/// A filter on payloads accepts the points whose payload meets its condition; a point without a
/// payload is not accepted. Without a filter every point is.
pub proof fn law_filter_accepts(f: PayloadFilter, point: PointV)
    ensures
        f.accepts(point) == (point.payload matches Some(p) && f.condition@.holds(p)),
        pass_of(Some(&f))(point) == f.accepts(point),
        pass_of(None::<&PayloadFilter>)(point),
{
}

/// What the filter of a request lets through: the points whose payload meets the condition that it
/// stands for; every point where it stands for none.
pub proof fn law_request_filter(filter: Option<JsonV>, point: PointV)
    ensures
        filter is None ==> pass_json(filter)(point),
        filter matches Some(f) ==> match filter_condition(f) {
            Some(c) => pass_json(filter)(point) == (point.payload matches Some(p) && c.holds(p)),
            None => pass_json(filter)(point),
        },
{
}

/// Of the conditions in a list, those that can be read count, all of them and in order.
pub proof fn law_all_conditions_read(list: Seq<JsonV>)
    ensures
        field_conditions(list) == list.filter_map(|c: JsonV| field_condition(c)),
    decreases list.len(),
{
    reveal(Seq::filter_map);
    if list.len() > 0 {
        law_all_conditions_read(list.drop_last());
        let rest = list.drop_last().filter_map(|c: JsonV| field_condition(c));
        if let Some(c) = field_condition(list.last()) {
            assert(rest.push(c) =~= rest + seq![c]);
        }
    } else {
        assert(field_conditions(list) =~= list.filter_map(|c: JsonV| field_condition(c)));
    }
}

proof fn lemma_conditions_of(list: Seq<JsonV>)
    ensures
        forall|i: int|
            0 <= i < list.len() && field_condition(#[trigger] list[i]) is Some ==> field_conditions(list).contains(
                field_condition(list[i])->0,
            ),
        forall|j: int|
            0 <= j < field_conditions(list).len() ==> condition_from(list, #[trigger] field_conditions(list)[j]),
    decreases list.len(),
{
    if list.len() > 0 {
        let rest = list.drop_last();
        lemma_conditions_of(rest);
        let all = field_conditions(list);
        let before = field_conditions(rest);
        assert forall|i: int| 0 <= i < list.len() && field_condition(#[trigger] list[i]) is Some implies all.contains(
            field_condition(list[i])->0,
        ) by {
            if i < rest.len() {
                assert(rest[i] == list[i]);
                assert(before.contains(field_condition(rest[i])->0));
                let m = choose|m: int| 0 <= m < before.len() && before[m] == field_condition(rest[i])->0;
                assert(all[m] == before[m]);
            } else {
                assert(all[before.len() as int] == field_condition(list[i])->0);
            }
        }
        assert forall|j: int| 0 <= j < all.len() implies condition_from(list, #[trigger] all[j]) by {
            if j < before.len() {
                assert(all[j] == before[j]);
                assert(condition_from(rest, before[j]));
                let i = choose|i: int| 0 <= i < rest.len() && field_condition(#[trigger] rest[i]) == Some(before[j]);
                assert(field_condition(list[i]) == Some(all[j]));
            } else {
                assert(field_condition(list[list.len() - 1]) == Some(all[j]));
            }
        }
    }
}

/// A condition is read from a list.
pub open spec fn condition_from(list: Seq<JsonV>, c: FilterConditionV) -> bool {
    exists|i: int| 0 <= i < list.len() && field_condition(#[trigger] list[i]) == Some(c)
}

/// A list holds a condition that can be read.
pub open spec fn some_readable(list: Seq<JsonV>) -> bool {
    exists|i: int| 0 <= i < list.len() && field_condition(#[trigger] list[i]) is Some
}

/// A payload meets every readable condition of a list.
pub open spec fn meets_each(list: Seq<JsonV>, payload: JsonV) -> bool {
    forall|i: int|
        0 <= i < list.len() ==> (field_condition(#[trigger] list[i]) matches Some(c) ==> c.holds(payload))
}

/// A payload meets one of the readable conditions of a list.
pub open spec fn meets_one(list: Seq<JsonV>, payload: JsonV) -> bool {
    exists|i: int|
        0 <= i < list.len() && (field_condition(#[trigger] list[i]) matches Some(c) && c.holds(payload))
}

proof fn lemma_read_conditions(list: Seq<JsonV>, payload: JsonV)
    ensures
        (field_conditions(list).len() > 0) == some_readable(list),
        meets_each(list, payload) == forall|i: int|
            0 <= i < field_conditions(list).len() ==> (#[trigger] field_conditions(list)[i]).holds(payload),
        meets_one(list, payload) == exists|i: int|
            0 <= i < field_conditions(list).len() && (#[trigger] field_conditions(list)[i]).holds(payload),
{
    lemma_conditions_of(list);
    let all = field_conditions(list);
    if all.len() > 0 {
        assert(condition_from(list, all[0]));
    }
    if some_readable(list) {
        let i = choose|i: int| 0 <= i < list.len() && field_condition(#[trigger] list[i]) is Some;
        assert(all.contains(field_condition(list[i])->0));
    }
    let each = forall|i: int| 0 <= i < all.len() ==> (#[trigger] all[i]).holds(payload);
    let one = exists|i: int| 0 <= i < all.len() && (#[trigger] all[i]).holds(payload);
    if meets_each(list, payload) {
        assert forall|i: int| 0 <= i < all.len() implies (#[trigger] all[i]).holds(payload) by {
            assert(condition_from(list, all[i]));
        }
    }
    if each {
        assert forall|i: int| 0 <= i < list.len() implies (field_condition(#[trigger] list[i]) matches Some(c)
            ==> c.holds(payload)) by {
            if field_condition(list[i]) is Some {
                assert(all.contains(field_condition(list[i])->0));
            }
        }
    }
    if meets_one(list, payload) {
        let i = choose|i: int|
            0 <= i < list.len() && (field_condition(#[trigger] list[i]) matches Some(c) && c.holds(payload));
        let c = field_condition(list[i])->0;
        assert(all.contains(c));
        let m = choose|m: int| 0 <= m < all.len() && all[m] == c;
        assert(all[m].holds(payload));
    }
    if one {
        let m = choose|m: int| 0 <= m < all.len() && (#[trigger] all[m]).holds(payload);
        assert(condition_from(list, all[m]));
        let i = choose|i: int| 0 <= i < list.len() && field_condition(#[trigger] list[i]) == Some(all[m]);
        assert(field_condition(list[i]) matches Some(c) && c.holds(payload));
    }
}

/// A filter with conditions that can be read stands for a condition that a payload meets exactly
/// if it meets every readable one under `must`, one of those under `should` if there are any, and
/// none of those under `must_not`.
pub proof fn law_search_filter_meaning(
    filter: JsonV,
    must: Seq<JsonV>,
    should: Seq<JsonV>,
    must_not: Seq<JsonV>,
    payload: JsonV,
)
    requires
        filter.get_array("must"@) == Some(must) || (filter.get_array("must"@) is None && must.len() == 0),
        filter.get_array("should"@) == Some(should) || (filter.get_array("should"@) is None && should.len() == 0),
        filter.get_array("must_not"@) == Some(must_not) || (filter.get_array("must_not"@) is None && must_not.len() == 0),
        some_readable(must) || some_readable(should) || some_readable(must_not),
    ensures
        filter_condition(filter) is Some,
        filter_condition(filter)->0.holds(payload) == {
            &&& meets_each(must, payload)
            &&& some_readable(should) ==> meets_one(should, payload)
            &&& !meets_one(must_not, payload)
        },
{
    lemma_read_conditions(must, payload);
    lemma_read_conditions(should, payload);
    lemma_read_conditions(must_not, payload);
    assert(conditions_under(filter, "must"@) =~= field_conditions(must));
    assert(conditions_under(filter, "should"@) =~= field_conditions(should));
    assert(conditions_under(filter, "must_not"@) =~= field_conditions(must_not));
    assert(clauses(filter).len() > 0);
    law_filter_parts(filter, payload);
}

/// A range in the filter of a search keeps every bound that it gives as a number.
pub proof fn law_search_range(cond: JsonV, range: JsonV, key: Seq<char>, payload: JsonV)
    requires
        cond.get_text("key"@) == Some(key),
        cond.get_object("match"@) is Some ==> !asks_for_something(cond.get_object("match"@)->0),
        cond.get_object("range"@) == Some(range),
        range.get_number("gt"@) is Some || range.get_number("gte"@) is Some || range.get_number("lt"@) is Some
            || range.get_number("lte"@) is Some,
    ensures
        field_condition(cond) is Some,
        field_condition(cond)->0.holds(payload) == (payload.get_number(key) matches Some(n) && inside_bounds(n, range)),
{
    assert(bounds(range, key).len() > 0);
    law_range_keeps_all_bounds(cond, range, key, payload);
}

/// A match in the filter of a search asks for the value that it gives, or for the text.
pub proof fn law_search_match(cond: JsonV, m: JsonV, value: JsonV, key: Seq<char>, payload: JsonV)
    requires
        cond.get_text("key"@) == Some(key),
        cond.get_object("match"@) == Some(m),
        m.get("value"@) == Some(value) || (m.get("value"@) is None && m.get_array("any"@) is None && m.get("text"@) == Some(
            value,
        )),
    ensures
        field_condition(cond) is Some,
        field_condition(cond)->0.holds(payload) == (payload.get(key) matches Some(v) && v.same(value)),
{
    reveal_with_fuel(FilterConditionV::holds, 2);
}

/// A match with several values in the filter of a search asks for one of them.
pub proof fn law_search_any(cond: JsonV, m: JsonV, any: Seq<JsonV>, key: Seq<char>, payload: JsonV)
    requires
        cond.get_text("key"@) == Some(key),
        cond.get_object("match"@) == Some(m),
        m.get("value"@) is None,
        m.get_array("any"@) == Some(any),
        any.len() > 0,
    ensures
        field_condition(cond) is Some,
        field_condition(cond)->0.holds(payload) == (payload.get(key) is Some && exists|i: int|
            0 <= i < any.len() && payload.get(key)->0.same(#[trigger] any[i])),
{
    reveal_with_fuel(FilterConditionV::holds, 2);
    let each = equals_each(key, any);
    lemma_holds_or(each, payload);
    assert forall|i: int| 0 <= i < any.len() implies (#[trigger] each[i]).holds(payload) == (payload.get(key) is Some
        && payload.get(key)->0.same(any[i])) by {}
    let c = field_condition(cond)->0;
    if c.holds(payload) {
        let i = if any.len() == 1 {
            0
        } else {
            choose|i: int| 0 <= i < each.len() && (#[trigger] each[i]).holds(payload)
        };
        assert(each[i].holds(payload));
        assert(payload.get(key)->0.same(any[i]));
    }
    if payload.get(key) is Some && exists|i: int| 0 <= i < any.len() && payload.get(key)->0.same(#[trigger] any[i]) {
        let i = choose|i: int| 0 <= i < any.len() && payload.get(key)->0.same(#[trigger] any[i]);
        assert(each[i].holds(payload));
    }
}

/// A match says something: it gives a value, some values or a text.
pub open spec fn asks_for_something(m: JsonV) -> bool {
    m.get("value"@) is Some || m.get("text"@) is Some || (m.get_array("any"@) is Some && m.get_array("any"@)->0.len() > 0)
}

/// A condition can be read exactly if it has a field, and a match that says something or a range with
/// a bound that is a number.
pub proof fn law_condition_readable(cond: JsonV)
    ensures
        (field_condition(cond) is Some) == (cond.get_text("key"@) is Some && ((cond.get_object("match"@) is Some
            && asks_for_something(cond.get_object("match"@)->0)) || (cond.get_object("range"@) is Some && {
            let range = cond.get_object("range"@)->0;
            range.get_number("gt"@) is Some || range.get_number("gte"@) is Some || range.get_number("lt"@) is Some
                || range.get_number("lte"@) is Some
        }))),
{
}

/// The short form of a filter: a field, an operator and a value.
pub proof fn law_short_filter(filter: JsonV, field: Seq<char>, value: JsonV, op: Seq<char>, payload: JsonV)
    requires
        filter.get_array("must"@) is None,
        filter.get_array("should"@) is None,
        filter.get_array("must_not"@) is None,
        filter.get_text("field"@) == Some(field),
        filter.get("value"@) == Some(value),
        filter.get_text("operator"@) == Some(op),
    ensures
        op == "eq"@ ==> filter_condition(filter) is Some && filter_condition(filter)->0.holds(payload) == (payload.get(field) matches Some(v)
            && v.same(value)),
        op == "ne"@ ==> filter_condition(filter) is Some && filter_condition(filter)->0.holds(payload) == !(payload.get(field) matches Some(v)
            && v.same(value)),
        op == "gt"@ && value is Number ==> filter_condition(filter) is Some && filter_condition(filter)->0.holds(payload) == (
        payload.get_number(field) matches Some(n) && value->Number_0.double.less(n.double)),
        op == "lt"@ && value is Number ==> filter_condition(filter) is Some && filter_condition(filter)->0.holds(payload) == (
        payload.get_number(field) matches Some(n) && n.double.less(value->Number_0.double)),
        op == "gte"@ && value is Number ==> filter_condition(filter) is Some && filter_condition(filter)->0.holds(payload) == (
        payload.get_number(field) matches Some(n) && value->Number_0.double.at_most(n.double)),
        op == "lte"@ && value is Number ==> filter_condition(filter) is Some && filter_condition(filter)->0.holds(payload) == (
        payload.get_number(field) matches Some(n) && n.double.at_most(value->Number_0.double)),
        (op == "gt"@ || op == "lt"@ || op == "gte"@ || op == "lte"@) && !(value is Number) ==> filter_condition(
            filter,
        ) is None,
{
    reveal_with_fuel(FilterConditionV::holds, 2);
    reveal_strlit("eq");
    reveal_strlit("ne");
    reveal_strlit("gt");
    reveal_strlit("lt");
    reveal_strlit("gte");
    reveal_strlit("lte");
    assert("eq"@[0] == 'e' && "ne"@[0] == 'n' && "gt"@[0] == 'g' && "lt"@[0] == 'l');
    assert("gte"@.len() == 3 && "lte"@.len() == 3 && "gt"@.len() == 2 && "lt"@.len() == 2);
    assert("gte"@[0] == 'g' && "lte"@[0] == 'l');
    assert(clauses(filter).len() == 0);
}

/// The operators that the short form can name.
pub open spec fn named_operator(op: Seq<char>) -> bool {
    op == "eq"@ || op == "ne"@ || op == "gt"@ || op == "lt"@ || op == "gte"@ || op == "lte"@
}

/// A single condition can stand for a whole filter; so it does where the short form lacks a part or
/// names an operator that there is not.
pub proof fn law_single_condition_filter(filter: JsonV)
    requires
        filter.get_array("must"@) is None,
        filter.get_array("should"@) is None,
        filter.get_array("must_not"@) is None,
        filter.get_text("field"@) is None || filter.get("value"@) is None || filter.get_text("operator"@) is None
            || !named_operator(filter.get_text("operator"@)->0),
    ensures
        filter_condition(filter) == field_condition(filter),
{
    assert(clauses(filter).len() == 0);
}

} // verus!
