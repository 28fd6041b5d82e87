//! Whether a point matches a filter given in JSON.

use vstd::prelude::*;
use crate::entries::{last_at, lemma_last_at};
use crate::json::{items, law_same_symmetric, lemma_array, Json, JsonV, NumberV};
use crate::point::{payload_of, Point, PointV};
use crate::text::{
    any_word_in, chars_of, find_brackets, find_char, first_brackets, first_of, has_any_word,
    same_text, skip_leading, text_of, without_leading,
};

verus! {

// ---------------------------------------------------------------------------------------------
// Paths into a payload

/// The value at a path of names with dots between them.
pub open spec fn follow(value: JsonV, path: Seq<char>) -> Option<JsonV>
    decreases path.len(),
{
    match first_of(path, '.') {
        Some(i) => if 0 <= i < path.len() {
            match value.get(path.take(i)) {
                Some(v) => follow(v, path.skip(i + 1)),
                None => None,
            }
        } else {
            None
        },
        None => value.get(path),
    }
}

/// What the members of an array have at a name; the members themselves if the name is empty.
pub open spec fn gather(list: Seq<JsonV>, name: Seq<char>) -> Seq<JsonV>
    decreases list.len(),
{
    if list.len() == 0 {
        Seq::empty()
    } else {
        let rest = gather(list.drop_last(), name);
        if name.len() == 0 {
            rest.push(list.last())
        } else {
            match list.last().get(name) {
                Some(v) => rest.push(v),
                None => rest,
            }
        }
    }
}

/// The name of the array in a path such as `diet[].food`.
pub open spec fn array_name(path: Seq<char>, at: int) -> Seq<char> {
    path.take(at)
}

/// The name behind the brackets in a path such as `diet[].food`, up to further brackets.
pub open spec fn element_name(path: Seq<char>, at: int) -> Seq<char> {
    let rest = path.skip(at + 2);
    without_leading(
        match first_brackets(rest) {
            Some(i) => rest.take(i),
            None => rest,
        },
        '.',
    )
}

/// The value at a path. With brackets in it, as in `diet[].food`, it is the array of what the
/// members of the array `diet` have at `food`, and nothing if none has anything there; otherwise
/// the names between the dots lead to it.
pub open spec fn nested_value(payload: Option<JsonV>, path: Seq<char>) -> Option<JsonV> {
    match payload {
        None => None,
        Some(p) => match first_brackets(path) {
            Some(at) => match p.get_array(array_name(path, at)) {
                Some(list) => {
                    let values = gather(list, element_name(path, at));
                    if values.len() > 0 {
                        Some(JsonV::Array(values))
                    } else {
                        None
                    }
                },
                None => None,
            },
            None => follow(p, path),
        },
    }
}

/// The name behind the brackets at `at`.
fn read_element_name(path: &Vec<char>, at: usize) -> (r: String)
    requires
        at + 2 <= path@.len(),
    ensures
        r@ == element_name(path@, at as int),
{
    let n: usize = path.len();
    let from: usize = at + 2;
    let ghost rest = path@.skip(from as int);
    let to: usize = match find_brackets(path, from) {
        Some(i) => i,
        None => n,
    };
    assert(path@.subrange(from as int, to as int) =~= match first_brackets(rest) {
        Some(i) => rest.take(i),
        None => rest,
    });
    let start: usize = skip_leading(path, from, to, '.');
    text_of(path, start, to)
}

/// What the members of an array have at a name.
fn gather_values(list: &Vec<Json>, name: &str) -> (r: Vec<Json>)
    ensures
        items(r@) == gather(items(list@), name@),
{
    let empty = same_text(name, "");
    let ghost all = items(list@);
    let mut r: Vec<Json> = Vec::new();
    let mut i: usize = 0;
    proof {
        reveal_strlit("");
        assert(""@ =~= Seq::<char>::empty());
        if name@.len() == 0 {
            assert(name@ =~= ""@);
        }
        assert(items(r@) =~= gather(all.take(0), name@));
    }
    while i < list.len()
        invariant
            i <= list@.len(),
            all == items(list@),
            empty == (name@.len() == 0),
            items(r@) == gather(all.take(i as int), name@),
        decreases list@.len() - i,
    {
        let ghost before = r@;
        assert(all.take(i + 1).drop_last() =~= all.take(i as int));
        assert(all.take(i + 1).last() == list@[i as int]@);
        if empty {
            r.push(list[i].clone());
            assert(items(r@) =~= items(before).push(list@[i as int]@));
        } else if let Some(v) = list[i].get(name) {
            r.push(v.clone());
            assert(items(r@) =~= items(before).push(v@));
        }
        i += 1;
    }
    assert(all.take(i as int) =~= all);
    r
}

/// Get a value from a nested path like "diet[].food" or "nested.field"
pub fn get_nested_value(payload: &Option<Json>, path: &str) -> (r: Option<Json>)
    ensures
        payload_of(r) == nested_value(payload_of(*payload), path@),
{
    let p = match payload {
        Some(p) => p,
        None => {
            return None;
        },
    };
    let chars = chars_of(path);
    assert(chars@.skip(0) =~= chars@);
    if let Some(at) = find_brackets(&chars, 0) {
        let name = text_of(&chars, 0, at);
        assert(name@ =~= array_name(path@, at as int));
        let list = match p.get_array(name.as_str()) {
            Some(list) => list,
            None => {
                return None;
            },
        };
        let element = read_element_name(&chars, at);
        let values = gather_values(list, element.as_str());
        if values.len() > 0 {
            proof {
                lemma_array(values);
                assert(items(values@).len() > 0);
            }
            return Some(Json::Array(values));
        }
        assert(items(values@).len() == 0);
        return None;
    }
    let n: usize = chars.len();
    let mut current = p;
    let mut from: usize = 0;
    loop
        invariant
            from <= n,
            n == chars@.len(),
            chars@ == path@,
            payload_of(*payload) == Some(p@),
            first_brackets(path@) is None,
            follow(p@, chars@) == follow(current@, chars@.skip(from as int)),
        decreases n - from,
    {
        let ghost rest = chars@.skip(from as int);
        match find_char(&chars, from, '.') {
            Some(dot) => {
                let name = text_of(&chars, from, dot);
                assert(name@ =~= rest.take(dot - from));
                assert(rest.skip(dot - from + 1) =~= chars@.skip(dot + 1));
                match current.get(name.as_str()) {
                    Some(v) => {
                        current = v;
                    },
                    None => {
                        return None;
                    },
                }
                from = dot + 1;
            },
            None => {
                let name = text_of(&chars, from, n);
                assert(name@ =~= rest);
                return match current.get(name.as_str()) {
                    Some(v) => Some(v.clone()),
                    None => None,
                };
            },
        }
    }
}

// ---------------------------------------------------------------------------------------------
// Comparing values

/// Values that are no arrays: numbers are equal if they stand for the same double-precision
/// number, everything else if it is the same.
pub open spec fn plainly_equal(a: JsonV, b: JsonV) -> bool {
    match (a, b) {
        (JsonV::Number(x), JsonV::Number(y)) => x.double.same(y.double),
        _ => a.same(b),
    }
}

/// Whether `b`, which is no array, is `a` or stands in the array `a`, at any depth.
pub open spec fn held_in(a: JsonV, b: JsonV) -> bool
    decreases a,
{
    match a {
        JsonV::Array(list) => exists|i: int| 0 <= i < list.len() && held_in(#[trigger] list[i], b),
        _ => plainly_equal(a, b),
    }
}

/// Whether `b`, which is no array, stands in a list, at any depth.
pub open spec fn held_in_list(list: Seq<JsonV>, b: JsonV) -> bool {
    exists|i: int| 0 <= i < list.len() && held_in(#[trigger] list[i], b)
}

/// Whether two values match: they are equal, or one is an array, at any depth, that has a member
/// which matches the other.
pub open spec fn equal_or_member(a: JsonV, b: JsonV) -> bool
    decreases a,
{
    match a {
        JsonV::Array(list) => exists|i: int| 0 <= i < list.len() && equal_or_member(#[trigger] list[i], b),
        _ => match b {
            JsonV::Array(list) => held_in_list(list, a),
            _ => plainly_equal(a, b),
        },
    }
}

fn plainly_same(a: &Json, b: &Json) -> (r: bool)
    ensures
        r == plainly_equal(a@, b@),
{
    match (a, b) {
        (Json::Number(x), Json::Number(y)) => x.double.equals(y.double),
        _ => a.same(b),
    }
}

proof fn lemma_held_in_array(list: Seq<JsonV>, b: JsonV)
    ensures
        held_in(JsonV::Array(list), b) == exists|i: int| 0 <= i < list.len() && held_in(#[trigger] list[i], b),
{
    reveal_with_fuel(held_in, 2);
    let a = JsonV::Array(list);
    if held_in(a, b) {
        let i = choose|i: int| 0 <= i < a->Array_0.len() && held_in(#[trigger] a->Array_0[i], b);
        assert(held_in(list[i], b));
    }
    if exists|i: int| 0 <= i < list.len() && held_in(#[trigger] list[i], b) {
        let i = choose|i: int| 0 <= i < list.len() && held_in(#[trigger] list[i], b);
        assert(held_in(a->Array_0[i], b));
        assert(held_in(a, b));
    }
}

fn is_held_in(a: &Json, b: &Json) -> (r: bool)
    ensures
        r == held_in(a@, b@),
    decreases a,
{
    match a {
        Json::Array(v) => {
            proof {
                lemma_array(*v);
                lemma_held_in_array(items(v@), b@);
            }
            let mut i: usize = 0;
            while i < v.len()
                invariant
                    i <= v@.len(),
                    *a == Json::Array(*v),
                    a@ == JsonV::Array(items(v@)),
                    held_in(a@, b@) == exists|j: int| 0 <= j < items(v@).len() && held_in(
                        #[trigger] items(v@)[j],
                        b@,
                    ),
                    forall|j: int| 0 <= j < i ==> !held_in(#[trigger] items(v@)[j], b@),
                decreases v@.len() - i,
            {
                assert(decreases_to!(*a => (*a)->Array_0));
                assert(decreases_to!(*v => v@));
                assert(decreases_to!(v@ => v@[i as int]));
                if is_held_in(&v[i], b) {
                    assert(held_in(items(v@)[i as int], b@));
                    return true;
                }
                i += 1;
            }
            false
        },
        _ => plainly_same(a, b),
    }
}

pub proof fn lemma_member_array(list: Seq<JsonV>, b: JsonV)
    ensures
        equal_or_member(JsonV::Array(list), b) == exists|i: int|
            0 <= i < list.len() && equal_or_member(#[trigger] list[i], b),
{
    reveal_with_fuel(equal_or_member, 2);
    let a = JsonV::Array(list);
    if equal_or_member(a, b) {
        let i = choose|i: int| 0 <= i < a->Array_0.len() && equal_or_member(#[trigger] a->Array_0[i], b);
        assert(equal_or_member(list[i], b));
    }
    if exists|i: int| 0 <= i < list.len() && equal_or_member(#[trigger] list[i], b) {
        let i = choose|i: int| 0 <= i < list.len() && equal_or_member(#[trigger] list[i], b);
        assert(equal_or_member(a->Array_0[i], b));
        assert(equal_or_member(a, b));
    }
}

/// Compare two JSON values for equality
pub fn values_equal(a: &Json, b: &Json) -> (r: bool)
    ensures
        r == equal_or_member(a@, b@),
    decreases a,
{
    match a {
        Json::Array(v) => {
            proof {
                lemma_array(*v);
                lemma_member_array(items(v@), b@);
            }
            let mut i: usize = 0;
            while i < v.len()
                invariant
                    i <= v@.len(),
                    *a == Json::Array(*v),
                    a@ == JsonV::Array(items(v@)),
                    equal_or_member(a@, b@) == exists|j: int|
                        0 <= j < items(v@).len() && equal_or_member(#[trigger] items(v@)[j], b@),
                    forall|j: int| 0 <= j < i ==> !equal_or_member(#[trigger] items(v@)[j], b@),
                decreases v@.len() - i,
            {
                assert(decreases_to!(*a => (*a)->Array_0));
                assert(decreases_to!(*v => v@));
                assert(decreases_to!(v@ => v@[i as int]));
                if values_equal(&v[i], b) {
                    assert(equal_or_member(items(v@)[i as int], b@));
                    return true;
                }
                i += 1;
            }
            false
        },
        _ => match b {
            Json::Array(v) => {
                proof {
                    lemma_array(*v);
                }
                let mut i: usize = 0;
                while i < v.len()
                    invariant
                        i <= v@.len(),
                        !(a@ is Array),
                        b@ == JsonV::Array(items(v@)),
                        forall|j: int| 0 <= j < i ==> !held_in(#[trigger] items(v@)[j], a@),
                    decreases v@.len() - i,
                {
                    if is_held_in(&v[i], a) {
                        assert(held_in(items(v@)[i as int], a@));
                        return true;
                    }
                    i += 1;
                }
                false
            },
            _ => plainly_same(a, b),
        },
    }
}

proof fn lemma_plainly_symmetric(a: JsonV, b: JsonV)
    requires
        a.names_once(),
        b.names_once(),
    ensures
        plainly_equal(a, b) == plainly_equal(b, a),
{
    law_same_symmetric(a, b);
}

/// Matching something that is no array is being it or holding it.
pub proof fn lemma_member_is_held(a: JsonV, b: JsonV)
    requires
        !(b is Array),
    ensures
        equal_or_member(a, b) == held_in(a, b),
    decreases a,
{
    if let JsonV::Array(list) = a {
        lemma_member_array(list, b);
        lemma_held_in_array(list, b);
        assert forall|i: int| 0 <= i < list.len() implies equal_or_member(#[trigger] list[i], b) == held_in(
            list[i],
            b,
        ) by {
            lemma_member_is_held(list[i], b);
        }
        if equal_or_member(a, b) {
            let i = choose|i: int| 0 <= i < list.len() && equal_or_member(#[trigger] list[i], b);
            assert(held_in(list[i], b));
        }
        if held_in(a, b) {
            let i = choose|i: int| 0 <= i < list.len() && held_in(#[trigger] list[i], b);
            assert(equal_or_member(list[i], b));
        }
    }
}

/// Whether a value matches one of a list.
proof fn lemma_member_of_array(a: JsonV, list: Seq<JsonV>)
    requires
        a.names_once(),
        JsonV::Array(list).names_once(),
    ensures
        equal_or_member(a, JsonV::Array(list)) == exists|j: int|
            0 <= j < list.len() && equal_or_member(a, #[trigger] list[j]),
    decreases a,
{
    let b = JsonV::Array(list);
    assert forall|j: int| 0 <= j < list.len() implies (#[trigger] list[j]).names_once() by {
        assert(b->Array_0[j] == list[j]);
    }
    let one = exists|j: int| 0 <= j < list.len() && equal_or_member(a, #[trigger] list[j]);
    match a {
        JsonV::Array(own) => {
            lemma_member_array(own, b);
            if equal_or_member(a, b) {
                let i = choose|i: int| 0 <= i < own.len() && equal_or_member(#[trigger] own[i], b);
                assert(own[i].names_once());
                lemma_member_of_array(own[i], list);
                let j = choose|j: int| 0 <= j < list.len() && equal_or_member(own[i], #[trigger] list[j]);
                lemma_member_array(own, list[j]);
                assert(equal_or_member(a, list[j]));
            }
            if one {
                let j = choose|j: int| 0 <= j < list.len() && equal_or_member(a, #[trigger] list[j]);
                lemma_member_array(own, list[j]);
                let i = choose|i: int| 0 <= i < own.len() && equal_or_member(#[trigger] own[i], list[j]);
                assert(own[i].names_once());
                lemma_member_of_array(own[i], list);
                assert(equal_or_member(own[i], list[j]));
                assert(equal_or_member(own[i], b));
            }
        },
        _ => {
            assert forall|j: int| 0 <= j < list.len() implies equal_or_member(a, #[trigger] list[j]) == held_in(
                list[j],
                a,
            ) by {
                match list[j] {
                    JsonV::Array(inner) => {
                        lemma_held_in_array(inner, a);
                    },
                    _ => {
                        lemma_plainly_symmetric(a, list[j]);
                    },
                }
            }
            if held_in_list(list, a) {
                let j = choose|j: int| 0 <= j < list.len() && held_in(#[trigger] list[j], a);
                assert(equal_or_member(a, list[j]));
            }
            if one {
                let j = choose|j: int| 0 <= j < list.len() && equal_or_member(a, #[trigger] list[j]);
                assert(held_in(list[j], a));
            }
        },
    }
}

/// Of two values in which no name stands twice in one object, it does not matter which is compared
/// with which.
pub proof fn law_equality_symmetric(a: JsonV, b: JsonV)
    requires
        a.names_once(),
        b.names_once(),
    ensures
        equal_or_member(a, b) == equal_or_member(b, a),
    decreases a,
{
    match a {
        JsonV::Array(list) => {
            lemma_member_array(list, b);
            lemma_member_of_array(b, list);
            if equal_or_member(a, b) {
                let i = choose|i: int| 0 <= i < list.len() && equal_or_member(#[trigger] list[i], b);
                assert(list[i].names_once());
                law_equality_symmetric(list[i], b);
                assert(equal_or_member(b, list[i]));
            }
            if equal_or_member(b, a) {
                let i = choose|i: int| 0 <= i < list.len() && equal_or_member(b, #[trigger] list[i]);
                assert(list[i].names_once());
                law_equality_symmetric(list[i], b);
                assert(equal_or_member(list[i], b));
            }
        },
        _ => match b {
            JsonV::Array(list) => {
                lemma_member_is_held(b, a);
                lemma_held_in_array(list, a);
            },
            _ => {
                lemma_plainly_symmetric(a, b);
            },
        },
    }
}

/// An array equals what one of its items equals, so that an empty one equals nothing.
pub proof fn law_array_equals_by_item(list: Seq<JsonV>, b: JsonV)
    ensures
        equal_or_member(JsonV::Array(list), b) == exists|i: int|
            0 <= i < list.len() && equal_or_member(#[trigger] list[i], b),
        list.len() == 0 ==> !equal_or_member(JsonV::Array(list), b),
{
    lemma_member_array(list, b);
}

/// Numbers are equal if they stand for the same double-precision number, however they are written;
/// a text equals neither a number nor a boolean.
pub proof fn law_equality_of_plain_values(x: NumberV, y: NumberV, t: Seq<char>, b: bool)
    ensures
        equal_or_member(JsonV::Number(x), JsonV::Number(y)) == x.double.same(y.double),
        !equal_or_member(JsonV::Text(t), JsonV::Number(x)),
        !equal_or_member(JsonV::Text(t), JsonV::Bool(b)),
{
}

// ---------------------------------------------------------------------------------------------
// Conditions on one value

/// Whether a value matches one of several.
pub open spec fn matches_any(actual: JsonV, any: Seq<JsonV>) -> bool {
    exists|i: int| 0 <= i < any.len() && equal_or_member(actual, #[trigger] any[i])
}

/// What `match` says of a value, if it says anything: that it matches `value`, or one of `any`,
/// or that it is a text with a word of `text` in it. A value that is not there matches nothing.
pub open spec fn match_verdict(actual: Option<JsonV>, m: JsonV) -> Option<bool> {
    match m.get("value"@) {
        Some(expected) => Some(
            match actual {
                Some(v) => equal_or_member(v, expected),
                None => false,
            },
        ),
        None => match m.get_array("any"@) {
            Some(any) => Some(
                match actual {
                    Some(v) => matches_any(v, any),
                    None => false,
                },
            ),
            None => match m.get_text("text"@) {
                Some(text) => Some(
                    match actual {
                        Some(JsonV::Text(s)) => any_word_in(text, s),
                        _ => false,
                    },
                ),
                None => None,
            },
        },
    }
}

/// Whether a number is inside the bounds that are given.
pub open spec fn in_range(actual: Option<JsonV>, range: JsonV) -> bool {
    match actual {
        Some(JsonV::Number(n)) => {
            &&& range.get_number("gt"@) matches Some(b) ==> !n.double.at_most(b.double)
            &&& range.get_number("gte"@) matches Some(b) ==> !n.double.less(b.double)
            &&& range.get_number("lt"@) matches Some(b) ==> !b.double.at_most(n.double)
            &&& range.get_number("lte"@) matches Some(b) ==> !b.double.less(n.double)
        },
        _ => false,
    }
}

/// Whether the value of a field meets a condition on it.
pub open spec fn field_matches(actual: Option<JsonV>, cond: JsonV) -> bool {
    let verdict = match cond.get_object("match"@) {
        Some(m) => match_verdict(actual, m),
        None => None,
    };
    match verdict {
        Some(v) => v,
        None => match cond.get_object("range"@) {
            Some(range) => in_range(actual, range),
            None => false,
        },
    }
}

fn check_match(actual: &Option<Json>, m: &Json) -> (r: Option<bool>)
    ensures
        r == match_verdict(payload_of(*actual), m@),
{
    if let Some(expected) = m.get("value") {
        return Some(
            match actual {
                Some(v) => values_equal(v, expected),
                None => false,
            },
        );
    }
    if let Some(any) = m.get_array("any") {
        let v = match actual {
            Some(v) => v,
            None => {
                return Some(false);
            },
        };
        let mut i: usize = 0;
        while i < any.len()
            invariant
                i <= any@.len(),
                match_verdict(payload_of(*actual), m@) == Some(matches_any(v@, items(any@))),
                forall|j: int| 0 <= j < i ==> !equal_or_member(v@, #[trigger] items(any@)[j]),
            decreases any@.len() - i,
        {
            if values_equal(v, &any[i]) {
                assert(equal_or_member(v@, items(any@)[i as int]));
                return Some(true);
            }
            i += 1;
        }
        return Some(false);
    }
    if let Some(text) = m.get_text("text") {
        return Some(
            match actual {
                Some(Json::Text(s)) => has_any_word(text.as_str(), s.as_str()),
                _ => false,
            },
        );
    }
    None
}

fn check_range(actual: &Option<Json>, range: &Json) -> (r: bool)
    ensures
        r == in_range(payload_of(*actual), range@),
{
    match actual {
        Some(Json::Number(n)) => {
            if let Some(b) = range.get_number("gt") {
                if n.double.le(b.double) {
                    return false;
                }
            }
            if let Some(b) = range.get_number("gte") {
                if n.double.lt(b.double) {
                    return false;
                }
            }
            if let Some(b) = range.get_number("lt") {
                if b.double.le(n.double) {
                    return false;
                }
            }
            if let Some(b) = range.get_number("lte") {
                if b.double.lt(n.double) {
                    return false;
                }
            }
            true
        },
        _ => false,
    }
}

fn check_field(actual: &Option<Json>, cond: &Json) -> (r: bool)
    ensures
        r == field_matches(payload_of(*actual), cond@),
{
    if let Some(m) = cond.get_object("match") {
        if let Some(v) = check_match(actual, m) {
            return v;
        }
    }
    if let Some(range) = cond.get_object("range") {
        return check_range(actual, range);
    }
    false
}

// ---------------------------------------------------------------------------------------------
// Conditions on the members of an array

/// Whether a member of an array meets a condition on one of its fields. Only an exact value can
/// be asked for.
pub open spec fn element_meets(element: JsonV, cond: JsonV) -> bool {
    match (cond.get_text("key"@), cond.get_object("match"@)) {
        (Some(key), Some(m)) => match (m.get("value"@), element.get(key)) {
            (Some(expected), Some(actual)) => equal_or_member(actual, expected),
            _ => false,
        },
        _ => false,
    }
}

/// Whether a member of an array meets one of several conditions.
pub open spec fn element_meets_some(element: JsonV, list: Seq<JsonV>) -> bool {
    exists|i: int| 0 <= i < list.len() && element_meets(element, #[trigger] list[i])
}

/// Whether a member of an array meets all of several conditions.
pub open spec fn element_meets_all(element: JsonV, list: Seq<JsonV>) -> bool {
    forall|i: int| 0 <= i < list.len() ==> element_meets(element, #[trigger] list[i])
}

/// Whether a member of an array meets a filter: all conditions under `must`, one of those under
/// `should` if there are any, and none under `must_not`.
pub open spec fn element_passes(element: JsonV, filter: JsonV) -> bool {
    &&& filter is Object
    &&& filter.get_array("must"@) matches Some(list) ==> element_meets_all(element, list)
    &&& filter.get_array("should"@) matches Some(list) ==> list.len() == 0 || element_meets_some(element, list)
    &&& filter.get_array("must_not"@) matches Some(list) ==> !element_meets_some(element, list)
}

/// Check if an array element matches a single condition
pub fn matches_element_condition(element: &Json, cond: &Json) -> (r: bool)
    ensures
        r == element_meets(element@, cond@),
{
    let key = match cond.get_text("key") {
        Some(k) => k,
        None => {
            return false;
        },
    };
    if let Some(m) = cond.get_object("match") {
        if let Some(expected) = m.get("value") {
            return match element.get(key.as_str()) {
                Some(actual) => values_equal(actual, expected),
                None => false,
            };
        }
    }
    false
}

/// Whether some member of a list of conditions is met, if `any`, or whether all are.
fn element_meets_list(element: &Json, list: &Vec<Json>, any: bool) -> (r: bool)
    ensures
        r == if any {
            element_meets_some(element@, items(list@))
        } else {
            element_meets_all(element@, items(list@))
        },
{
    let mut i: usize = 0;
    while i < list.len()
        invariant
            i <= list@.len(),
            forall|j: int| 0 <= j < i ==> element_meets(element@, #[trigger] items(list@)[j]) == !any,
        decreases list@.len() - i,
    {
        let met = matches_element_condition(element, &list[i]);
        assert(items(list@)[i as int] == list@[i as int]@);
        if met == any {
            return any;
        }
        i += 1;
    }
    !any
}

/// Check if an array element matches a nested filter
pub fn matches_nested_element(element: &Json, filter: &Json) -> (r: bool)
    ensures
        r == element_passes(element@, filter@),
{
    if !filter.is_object() {
        return false;
    }
    if let Some(must) = filter.get_array("must") {
        if !element_meets_list(element, must, false) {
            return false;
        }
    }
    if let Some(should) = filter.get_array("should") {
        if should.len() > 0 && !element_meets_list(element, should, true) {
            return false;
        }
    }
    if let Some(must_not) = filter.get_array("must_not") {
        if element_meets_list(element, must_not, true) {
            return false;
        }
    }
    true
}

// ---------------------------------------------------------------------------------------------
// Filters on points

/// Whether an identifier in JSON is that of a stored point.
pub open spec fn identifies(id: JsonV, key: Seq<char>) -> bool {
    match id {
        JsonV::Number(n) => n.text() == key,
        JsonV::Text(s) => s == key,
        _ => false,
    }
}

/// Whether a member of a list passes a filter.
pub open spec fn some_element_passes(list: Seq<JsonV>, filter: JsonV) -> bool {
    exists|i: int| 0 <= i < list.len() && element_passes(#[trigger] list[i], filter)
}

/// Whether a stored point is among those identified.
pub open spec fn identified_by(ids: Seq<JsonV>, key: Seq<char>) -> bool {
    exists|i: int| 0 <= i < ids.len() && identifies(#[trigger] ids[i], key)
}

/// Whether a member of the array that `nested` names passes its filter.
pub open spec fn nested_matches(payload: Option<JsonV>, nested: JsonV) -> bool {
    match (nested.get_text("key"@), nested.get("filter"@), payload) {
        (Some(key), Some(filter), Some(p)) => match p.get_array(key) {
            Some(list) => some_element_passes(list, filter),
            None => false,
        },
        _ => false,
    }
}

/// A member of an object is smaller than the object.
pub proof fn lemma_member_smaller(value: JsonV, key: Seq<char>)
    ensures
        value.get(key) matches Some(v) ==> decreases_to!(value => v),
        value.get_array(key) matches Some(list) ==> decreases_to!(value => list),
{
    if let JsonV::Object(e) = value {
        lemma_last_at(e, key);
        if let Some(v) = value.get(key) {
            let i = last_at(e, key)->0;
            assert(decreases_to!(value => value->Object_0));
            assert(decreases_to!(e => e[i]));
            assert(decreases_to!(e[i] => e[i].1));
            assert(e[i].1 == v);
            if v is Array {
                assert(decreases_to!(v => v->Array_0));
            }
        }
    }
}

/// Whether a point passes a filter: all conditions under `must`, one of those under `should` if
/// there are any, and none under `must_not`. What is no object lets everything pass.
pub open spec fn filter_matches(point: PointV, filter: JsonV) -> bool
    decreases filter, 0int,
{
    proof {
        lemma_member_smaller(filter, "must"@);
        lemma_member_smaller(filter, "should"@);
        lemma_member_smaller(filter, "must_not"@);
    }
    filter is Object ==> {
        &&& match filter.get_array("must"@) {
            Some(list) => meets_all(point, list),
            None => true,
        }
        &&& match filter.get_array("should"@) {
            Some(list) => list.len() == 0 || meets_some(point, list),
            None => true,
        }
        &&& match filter.get_array("must_not"@) {
            Some(list) => !meets_some(point, list),
            None => true,
        }
    }
}

/// Whether a point meets all of several conditions.
pub open spec fn meets_all(point: PointV, list: Seq<JsonV>) -> bool
    decreases list, 0int,
{
    forall|i: int| 0 <= i < list.len() ==> condition_matches(point, #[trigger] list[i])
}

/// Whether a point meets one of several conditions.
pub open spec fn meets_some(point: PointV, list: Seq<JsonV>) -> bool
    decreases list, 0int,
{
    exists|i: int| 0 <= i < list.len() && condition_matches(point, #[trigger] list[i])
}

/// Whether a point meets one condition: that its identifier is listed (`has_id`), that a member
/// of an array passes a filter (`nested`), that the value at a path matches (`key`), or a filter
/// inside the filter.
pub open spec fn condition_matches(point: PointV, cond: JsonV) -> bool
    decreases cond, 1int,
{
    if !(cond is Object) {
        false
    } else {
        match cond.get_array("has_id"@) {
            Some(ids) => identified_by(ids, point.key()),
            None => match cond.get_object("nested"@) {
                Some(nested) => nested_matches(point.payload, nested),
                None => match cond.get_text("key"@) {
                    Some(key) => field_matches(nested_value(point.payload, key), cond),
                    None => (cond.get("must"@) is Some || cond.get("should"@) is Some || cond.get("must_not"@) is Some)
                        && filter_matches(point, cond),
                },
            },
        }
    }
}

fn check_ids(ids: &Vec<Json>, key: &str) -> (r: bool)
    ensures
        r == identified_by(items(ids@), key@),
{
    let mut i: usize = 0;
    while i < ids.len()
        invariant
            i <= ids@.len(),
            forall|j: int| 0 <= j < i ==> !identifies(#[trigger] items(ids@)[j], key@),
        decreases ids@.len() - i,
    {
        let hit = match &ids[i] {
            Json::Number(n) => same_text(n.to_text().as_str(), key),
            Json::Text(s) => same_text(s.as_str(), key),
            _ => false,
        };
        assert(hit == identifies(items(ids@)[i as int], key@));
        if hit {
            return true;
        }
        i += 1;
    }
    false
}

fn check_nested(payload: &Option<Json>, nested: &Json) -> (r: bool)
    ensures
        r == nested_matches(payload_of(*payload), nested@),
{
    let key = match nested.get_text("key") {
        Some(k) => k,
        None => {
            return false;
        },
    };
    let filter = match nested.get("filter") {
        Some(f) => f,
        None => {
            return false;
        },
    };
    let p = match payload {
        Some(p) => p,
        None => {
            return false;
        },
    };
    let list = match p.get_array(key.as_str()) {
        Some(list) => list,
        None => {
            return false;
        },
    };
    let mut i: usize = 0;
    while i < list.len()
        invariant
            i <= list@.len(),
            nested_matches(payload_of(*payload), nested@) == some_element_passes(items(list@), filter@),
            forall|j: int| 0 <= j < i ==> !element_passes(#[trigger] items(list@)[j], filter@),
        decreases list@.len() - i,
    {
        if matches_nested_element(&list[i], filter) {
            assert(element_passes(items(list@)[i as int], filter@));
            return true;
        }
        i += 1;
    }
    false
}

pub proof fn lemma_meets(point: PointV, list: Seq<JsonV>)
    ensures
        meets_all(point, list) == forall|i: int|
            0 <= i < list.len() ==> condition_matches(point, #[trigger] list[i]),
        meets_some(point, list) == exists|i: int|
            0 <= i < list.len() && condition_matches(point, #[trigger] list[i]),
{
    reveal_with_fuel(meets_all, 2);
    reveal_with_fuel(meets_some, 2);
    reveal_with_fuel(condition_matches, 2);
}

/// Whether a point meets one of several conditions, if `any`, or all of them.
fn check_list(point: &Point, list: &Vec<Json>, any: bool) -> (r: bool)
    ensures
        r == if any {
            meets_some(point@, items(list@))
        } else {
            meets_all(point@, items(list@))
        },
    decreases items(list@), 0int, 0int,
{
    proof {
        lemma_meets(point@, items(list@));
    }
    let mut i: usize = 0;
    while i < list.len()
        invariant
            i <= list@.len(),
            forall|j: int| 0 <= j < i ==> condition_matches(point@, #[trigger] items(list@)[j]) == !any,
        decreases list@.len() - i,
    {
        assert(items(list@)[i as int] == list@[i as int]@);
        assert(decreases_to!(items(list@) => items(list@)[i as int]));
        let met = matches_condition(point, &list[i]);
        if met == any {
            proof {
                lemma_meets(point@, items(list@));
            }
            return any;
        }
        i += 1;
    }
    !any
}

/// A filter that asks for nothing lets every point pass.
pub proof fn law_filter_without_parts(point: PointV, filter: JsonV)
    requires
        filter.get_array("must"@) is None,
        filter.get_array("should"@) is None,
        filter.get_array("must_not"@) is None,
    ensures
        filter_matches(point, filter),
{
}

/// What must not hold is let pass exactly where it would not be if it had to hold; and of a
/// single condition, that it must hold and that it should hold is the same.
pub proof fn law_must_not_negates(point: PointV, cond: JsonV, must: JsonV, should: JsonV, must_not: JsonV)
    requires
        must is Object && must.get_array("must"@) == Some(seq![cond]),
        must.get_array("should"@) is None && must.get_array("must_not"@) is None,
        should is Object && should.get_array("should"@) == Some(seq![cond]),
        should.get_array("must"@) is None && should.get_array("must_not"@) is None,
        must_not is Object && must_not.get_array("must_not"@) == Some(seq![cond]),
        must_not.get_array("must"@) is None && must_not.get_array("should"@) is None,
    ensures
        filter_matches(point, must) == condition_matches(point, cond),
        filter_matches(point, should) == condition_matches(point, cond),
        filter_matches(point, must_not) == !condition_matches(point, cond),
{
    let list = seq![cond];
    reveal_with_fuel(filter_matches, 2);
    lemma_meets(point, list);
    assert(list[0] == cond);
    if condition_matches(point, cond) {
        assert(condition_matches(point, list[0]));
    }
    assert(meets_all(point, list) == condition_matches(point, cond));
    assert(meets_some(point, list) == condition_matches(point, cond));
}

/// Check if a point matches a filter
pub fn matches_filter(point: &Point, filter: &Json) -> (r: bool)
    ensures
        r == filter_matches(point@, filter@),
    decreases filter@, 0int, 1int,
{
    if !filter.is_object() {
        return true;
    }
    proof {
        lemma_member_smaller(filter@, "must"@);
        lemma_member_smaller(filter@, "should"@);
        lemma_member_smaller(filter@, "must_not"@);
    }
    if let Some(must) = filter.get_array("must") {
        if !check_list(point, must, false) {
            return false;
        }
    }
    if let Some(should) = filter.get_array("should") {
        if should.len() > 0 && !check_list(point, should, true) {
            return false;
        }
    }
    if let Some(must_not) = filter.get_array("must_not") {
        if check_list(point, must_not, true) {
            return false;
        }
    }
    true
}

/// Check if a point matches a single condition
pub fn matches_condition(point: &Point, cond: &Json) -> (r: bool)
    ensures
        r == condition_matches(point@, cond@),
    decreases cond@, 1int, 0int,
{
    if !cond.is_object() {
        return false;
    }
    if let Some(ids) = cond.get_array("has_id") {
        let key = point.id.key();
        return check_ids(ids, key.as_str());
    }
    if let Some(nested) = cond.get_object("nested") {
        return check_nested(&point.payload, nested);
    }
    match cond.get_text("key") {
        Some(key) => {
            let value = get_nested_value(&point.payload, key.as_str());
            check_field(&value, cond)
        },
        None => {
            if cond.get("must").is_some() || cond.get("should").is_some() || cond.get("must_not").is_some() {
                matches_filter(point, cond)
            } else {
                false
            }
        },
    }
}

} // verus!
