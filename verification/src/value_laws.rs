//! Numbers, texts, lists and JSON values: what comparing, ordering and finding them means.

use vstd::prelude::*;
use crate::collection_laws::{law_merged_lookup, law_stripped_lookup};
use crate::entries::{
    last_at, lemma_last_at, lemma_last_at_is, lookup, names_distinct, put, without,
};
use crate::ieee::{Double, Real};
use crate::json::{merged, stripped, JsonV, NumberFormV, NumberV};
use crate::order::{leads, orders, ranked};
use crate::point::{is_fault, is_multivector, MultiVectorError, PointIdV, PointV};
use crate::store::{
    keys_distinct, lemma_place_is, lemma_place_of, place_of, point_under, stored, taken_out,
};
use crate::text::{
    any_word_in, contains_text, decimal_of, is_word, law_decimal_read_back, lowercase_of,
    signed_decimal_of, stands_at, starts_with, white_space,
};

verus! {

// ---------------------------------------------------------------------------------------------
// Floating-point numbers

/// Single-precision numbers are ordered as their bits say: positive ones by them, negative ones the
/// other way round and below the positive ones; both zeros are one number; and what is no number is
/// neither below nor above anything.
pub proof fn law_reals_ordered(a: Real, b: Real)
    ensures
        a.nan() == (0x7f80_0000 < a.bits < 0x8000_0000 || a.bits > 0xff80_0000),
        a.nan() || b.nan() ==> !a.less(b) && !a.at_most(b),
        !a.nan() && !b.nan() ==> a.at_most(b) == !b.less(a),
        !a.nan() && !b.nan() && a.bits < 0x8000_0000 && b.bits < 0x8000_0000 ==> a.less(b) == (a.bits < b.bits),
        !a.nan() && !b.nan() && a.bits >= 0x8000_0000 && b.bits >= 0x8000_0000 ==> a.less(b) == (a.bits > b.bits),
        !a.nan() && !b.nan() && a.bits >= 0x8000_0000 && b.bits < 0x8000_0000 ==> !b.less(a) && a.less(b) == !(a.bits
            == 0x8000_0000 && b.bits == 0),
        a.opposite().bits == if a.bits >= 0x8000_0000 {
            a.bits - 0x8000_0000
        } else {
            a.bits + 0x8000_0000
        },
{
}

/// Scores are ranked with the higher ones first, distances with the lower ones first, and in both
/// ways what is no number comes last.
pub proof fn law_reals_ranked(a: Real, b: Real)
    ensures
        (a.best_rank() < b.best_rank()) == (b.less(a) || (!a.nan() && b.nan())),
        (a.near_rank() < b.near_rank()) == (a.less(b) || (!a.nan() && b.nan())),
{
}

/// Double-precision numbers are ordered as their bits say.
pub proof fn law_doubles_ordered(a: Double, b: Double)
    ensures
        a.nan() == (0x7ff0_0000_0000_0000 < a.bits < 0x8000_0000_0000_0000 || a.bits > 0xfff0_0000_0000_0000),
        a.finite() == (a.bits < 0x7ff0_0000_0000_0000 || 0x8000_0000_0000_0000 <= a.bits < 0xfff0_0000_0000_0000),
        a.nan() || b.nan() ==> !a.less(b) && !a.at_most(b) && !a.same(b),
        !a.nan() && !b.nan() ==> a.at_most(b) == !b.less(a) && a.same(b) == (!a.less(b) && !b.less(a)),
        !a.nan() && !b.nan() && a.bits < 0x8000_0000_0000_0000 && b.bits < 0x8000_0000_0000_0000 ==> a.less(b) == (a.bits
            < b.bits),
        !a.nan() && !b.nan() && a.bits >= 0x8000_0000_0000_0000 && b.bits >= 0x8000_0000_0000_0000 ==> a.less(b) == (
        a.bits > b.bits),
        !a.nan() && !b.nan() && a.bits >= 0x8000_0000_0000_0000 && b.bits < 0x8000_0000_0000_0000 ==> !b.less(a)
            && a.less(b) == !(a.bits == 0x8000_0000_0000_0000 && b.bits == 0),
{
}

// ---------------------------------------------------------------------------------------------
// Sorting

/// Sorting lists every place once, lower ranks first, and equal ranks in the order of the list.
pub proof fn law_sorted_by_rank(ranks: Seq<i64>, order: Seq<usize>)
    requires
        orders(ranks, order),
    ensures
        order.len() == ranks.len(),
        order.no_duplicates(),
        forall|j: int| 0 <= j < order.len() ==> #[trigger] order[j] < ranks.len(),
        forall|v: usize| v < ranks.len() ==> #[trigger] order.contains(v),
        forall|i: int, j: int|
            0 <= i < j < order.len() ==> {
                ||| ranks[#[trigger] order[i] as int] < ranks[#[trigger] order[j] as int]
                ||| ranks[order[i] as int] == ranks[order[j] as int] && order[i] < order[j]
            },
{
    assert forall|i: int, j: int| 0 <= i < j < order.len() implies {
        ||| ranks[#[trigger] order[i] as int] < ranks[#[trigger] order[j] as int]
        ||| ranks[order[i] as int] == ranks[order[j] as int] && order[i] < order[j]
    } by {
        assert(ranked(ranks, order[i] as int).precedes(ranked(ranks, order[j] as int)));
    }
}

/// What leads is sorted, and what does not lead has no lower rank than anything that does.
pub proof fn law_lowest_lead(ranks: Seq<i64>, count: nat, order: Seq<usize>)
    requires
        leads(ranks, count, order),
    ensures
        order.len() == if count <= ranks.len() {
            count
        } else {
            ranks.len()
        },
        order.no_duplicates(),
        forall|j: int| 0 <= j < order.len() ==> #[trigger] order[j] < ranks.len(),
        forall|i: int, j: int|
            0 <= i < j < order.len() ==> {
                ||| ranks[#[trigger] order[i] as int] < ranks[#[trigger] order[j] as int]
                ||| ranks[order[i] as int] == ranks[order[j] as int] && order[i] < order[j]
            },
        forall|j: int, v: usize|
            0 <= j < order.len() && v < ranks.len() && !order.contains(v) ==> {
                ||| ranks[#[trigger] order[j] as int] < #[trigger] ranks[v as int]
                ||| ranks[order[j] as int] == ranks[v as int] && order[j] < v
            },
{
    assert forall|i: int, j: int| 0 <= i < j < order.len() implies {
        ||| ranks[#[trigger] order[i] as int] < ranks[#[trigger] order[j] as int]
        ||| ranks[order[i] as int] == ranks[order[j] as int] && order[i] < order[j]
    } by {
        assert(ranked(ranks, order[i] as int).precedes(ranked(ranks, order[j] as int)));
    }
    assert forall|j: int, v: usize| 0 <= j < order.len() && v < ranks.len() && !order.contains(v) implies {
        ||| ranks[#[trigger] order[j] as int] < #[trigger] ranks[v as int]
        ||| ranks[order[j] as int] == ranks[v as int] && order[j] < v
    } by {
        assert(ranked(ranks, order[j] as int).precedes(ranked(ranks, v as int)));
    }
}

// ---------------------------------------------------------------------------------------------
// Named values and stored points

/// A name leads to the value that stands last under it, and to nothing exactly if none does.
pub proof fn law_named_value_found<V>(s: Seq<(Seq<char>, V)>, key: Seq<char>)
    ensures
        (lookup(s, key) is None) == forall|i: int| 0 <= i < s.len() ==> (#[trigger] s[i]).0 != key,
        forall|i: int|
            0 <= i < s.len() && (#[trigger] s[i]).0 == key && (forall|j: int| i < j < s.len() ==> (#[trigger] s[j]).0 != key)
                ==> lookup(s, key) == Some(s[i].1),
{
    lemma_last_at(s, key);
    if lookup(s, key) is Some {
        let i = last_at(s, key)->0;
        assert(s[i].0 == key);
    }
    assert forall|i: int|
        0 <= i < s.len() && (#[trigger] s[i]).0 == key && (forall|j: int| i < j < s.len() ==> (#[trigger] s[j]).0 != key) implies lookup(
        s,
        key,
    ) == Some(s[i].1) by {
        lemma_last_at_is(s, key, i);
    }
}

/// Setting a name that is there keeps its place, a new one comes last; nothing else moves.
pub proof fn law_put_in_place<V>(s: Seq<(Seq<char>, V)>, key: Seq<char>, v: V)
    ensures
        put(s, key, v).len() == if lookup(s, key) is Some {
            s.len()
        } else {
            s.len() + 1
        },
        forall|i: int| 0 <= i < s.len() && (#[trigger] s[i]).0 != key ==> put(s, key, v)[i] == s[i],
        lookup(s, key) is None ==> put(s, key, v).last() == (key, v),
{
    lemma_last_at(s, key);
}

/// A name that is taken out leaves the others, in their order.
pub proof fn law_without_others<V>(s: Seq<(Seq<char>, V)>, key: Seq<char>)
    ensures
        without(s, key) == s.filter(|e: (Seq<char>, V)| e.0 != key),
    decreases s.len(),
{
    reveal(Seq::filter);
    if s.len() > 0 {
        law_without_others(s.drop_last(), key);
    } else {
        assert(without(s, key) =~= s.filter(|e: (Seq<char>, V)| e.0 != key));
    }
}

/// A key leads to the point that has it, and to nothing exactly if none has.
pub proof fn law_point_found(points: Seq<PointV>, key: Seq<char>)
    requires
        keys_distinct(points),
    ensures
        (point_under(points, key) is None) == forall|i: int| 0 <= i < points.len() ==> (#[trigger] points[i]).key() != key,
        forall|i: int| 0 <= i < points.len() && (#[trigger] points[i]).key() == key ==> point_under(points, key) == Some(
            points[i],
        ),
{
    lemma_place_of(points, key);
    if let Some(i) = place_of(points, key) {
        assert(points[i].key() == key);
    }
    assert forall|i: int| 0 <= i < points.len() && (#[trigger] points[i]).key() == key implies point_under(points, key)
        == Some(points[i]) by {
        lemma_place_is(points, i);
    }
}

/// A point that is stored again keeps its place, a new one comes last; no other point moves or
/// changes. A point that is taken out makes the points one fewer.
pub proof fn law_stored_in_place(points: Seq<PointV>, point: PointV)
    ensures
        stored(points, point).len() == if point_under(points, point.key()) is Some {
            points.len()
        } else {
            points.len() + 1
        },
        forall|i: int|
            0 <= i < points.len() && (#[trigger] points[i]).key() != point.key() ==> stored(points, point)[i] == points[i],
        point_under(points, point.key()) is None ==> stored(points, point) == points.push(point),
        taken_out(points, point.key()).len() == if point_under(points, point.key()) is Some {
            points.len() - 1
        } else {
            points.len() as int
        },
{
    lemma_place_of(points, point.key());
}

// ---------------------------------------------------------------------------------------------
// Texts

/// A text contains another exactly if it is made of something, that other text and something else.
pub proof fn law_contained_text(s: Seq<char>, needle: Seq<char>, a: Seq<char>, b: Seq<char>)
    ensures
        contains_text(a + needle + b, needle),
        starts_with(needle + b, needle),
        contains_text(s, needle) ==> exists|x: Seq<char>, y: Seq<char>| s == #[trigger] (x + needle + y),
        starts_with(s, needle) ==> exists|y: Seq<char>| s == #[trigger] (needle + y),
{
    let whole = a + needle + b;
    assert(whole.subrange(a.len() as int, (a.len() + needle.len()) as int) =~= needle);
    assert(stands_at(whole, needle, a.len() as int));
    assert((needle + b).subrange(0, needle.len() as int) =~= needle);
    if contains_text(s, needle) {
        let i = choose|i: int| #[trigger] stands_at(s, needle, i);
        let x = s.take(i);
        let y = s.skip(i + needle.len());
        assert forall|m: int| 0 <= m < s.len() implies s[m] == (x + needle + y)[m] by {
            if i <= m < i + needle.len() {
                assert(s.subrange(i, i + needle.len())[m - i] == needle[m - i]);
            }
        }
        assert(s =~= x + needle + y);
    }
    if starts_with(s, needle) {
        let y = s.skip(needle.len() as int);
        assert forall|m: int| 0 <= m < s.len() implies s[m] == (needle + y)[m] by {
            if m < needle.len() {
                assert(s.subrange(0, needle.len() as int)[m] == needle[m]);
            }
        }
        assert(s =~= needle + y);
    }
}

/// What a text contains, it still contains with more behind it; and it contains what it ends with.
pub proof fn law_contained_in_longer(s: Seq<char>, more: Seq<char>, needle: Seq<char>)
    ensures
        contains_text(s, needle) ==> contains_text(s + more, needle),
        contains_text(s + needle, needle),
{
    if contains_text(s, needle) {
        let i = choose|i: int| #[trigger] stands_at(s, needle, i);
        assert((s + more).subrange(i, i + needle.len()) =~= s.subrange(i, i + needle.len()));
        assert(stands_at(s + more, needle, i));
    }
    assert((s + needle).subrange(s.len() as int, s.len() as int + needle.len()) =~= needle);
    assert(stands_at(s + needle, needle, s.len() as int));
}

/// Among ASCII characters, the space and the five control characters from the tab on are white
/// space.
pub proof fn law_ascii_white_space(c: char)
    requires
        (c as u32) < 0x80,
    ensures
        white_space(c) == (c == ' ' || 9 <= (c as u32) <= 13),
{
}

/// A single word is looked for as it is, in lower case; without a word nothing is found.
pub proof fn law_one_word(word: Seq<char>, s: Seq<char>)
    requires
        forall|i: int| 0 <= i < word.len() ==> !white_space(#[trigger] word[i]),
    ensures
        any_word_in(word, s) == (word.len() > 0 && contains_text(lowercase_of(s), lowercase_of(word))),
{
    if any_word_in(word, s) {
        let (i, j) = choose|i: int, j: int| #[trigger]
            is_word(word, i, j) && contains_text(lowercase_of(s), lowercase_of(word.subrange(i, j)));
        if i > 0 {
            assert(white_space(word[i - 1]));
        }
        if j < word.len() {
            assert(white_space(word[j]));
        }
        assert(word.subrange(i, j) =~= word);
    }
    if word.len() > 0 && contains_text(lowercase_of(s), lowercase_of(word)) {
        assert(word.subrange(0, word.len() as int) =~= word);
        assert(is_word(word, 0, word.len() as int));
    }
}

/// White space parts words: a query of two parts finds what either of them finds.
pub proof fn law_words_parted(a: Seq<char>, c: char, b: Seq<char>, s: Seq<char>)
    requires
        white_space(c),
    ensures
        any_word_in(a + seq![c] + b, s) == (any_word_in(a, s) || any_word_in(b, s)),
{
    let query = a + seq![c] + b;
    let n = a.len() as int;
    assert(query[n] == c);
    assert forall|m: int| 0 <= m < n implies query[m] == a[m] by {}
    assert forall|m: int| 0 <= m < b.len() implies query[n + 1 + m] == b[m] by {}
    if any_word_in(query, s) {
        let (i, j) = choose|i: int, j: int| #[trigger]
            is_word(query, i, j) && contains_text(lowercase_of(s), lowercase_of(query.subrange(i, j)));
        if i <= n < j {
            assert(!white_space(query[n]));
        }
        if j <= n {
            assert(query.subrange(i, j) =~= a.subrange(i, j));
            assert forall|m: int| i <= m < j implies !white_space(#[trigger] a[m]) by {
                assert(query[m] == a[m]);
            }
            if i > 0 {
                assert(query[i - 1] == a[i - 1]);
            }
            assert(is_word(a, i, j));
        } else {
            let x = i - n - 1;
            let y = j - n - 1;
            assert(query.subrange(i, j) =~= b.subrange(x, y));
            assert forall|m: int| x <= m < y implies !white_space(#[trigger] b[m]) by {
                assert(query[n + 1 + m] == b[m]);
            }
            if x > 0 {
                assert(query[n + 1 + (x - 1)] == b[x - 1]);
            }
            if y < b.len() {
                assert(query[n + 1 + y] == b[y]);
            }
            assert(is_word(b, x, y));
        }
    }
    if any_word_in(a, s) {
        let (i, j) = choose|i: int, j: int| #[trigger]
            is_word(a, i, j) && contains_text(lowercase_of(s), lowercase_of(a.subrange(i, j)));
        assert(query.subrange(i, j) =~= a.subrange(i, j));
        assert forall|m: int| i <= m < j implies !white_space(#[trigger] query[m]) by {
            assert(query[m] == a[m]);
        }
        if i > 0 {
            assert(query[i - 1] == a[i - 1]);
        }
        assert(is_word(query, i, j));
    }
    if any_word_in(b, s) {
        let (x, y) = choose|x: int, y: int| #[trigger]
            is_word(b, x, y) && contains_text(lowercase_of(s), lowercase_of(b.subrange(x, y)));
        let i = n + 1 + x;
        let j = n + 1 + y;
        assert(query.subrange(i, j) =~= b.subrange(x, y));
        assert forall|m: int| i <= m < j implies !white_space(#[trigger] query[m]) by {
            assert(query[m] == b[m - n - 1]);
        }
        if x > 0 {
            assert(query[i - 1] == b[x - 1]);
        }
        if y < b.len() {
            assert(query[j] == b[y]);
        }
        assert(is_word(query, i, j));
    }
}

// ---------------------------------------------------------------------------------------------
// JSON

/// Numbers are the same if they are written in one way and are equal: whole numbers by their value,
/// others by the double-precision number that they stand for.
pub proof fn law_same_numbers(a: NumberV, b: NumberV)
    ensures
        a.same(b) == match (a.form, b.form) {
            (NumberFormV::Natural(x), NumberFormV::Natural(y)) => x == y,
            (NumberFormV::Negative(x), NumberFormV::Negative(y)) => x == y,
            (NumberFormV::Decimal(_), NumberFormV::Decimal(_)) => a.double.same(b.double),
            _ => false,
        },
        a.text() == match a.form {
            NumberFormV::Natural(x) => decimal_of(x as nat),
            NumberFormV::Negative(x) => signed_decimal_of(x as int),
            NumberFormV::Decimal(t) => t,
        },
        a.natural() matches Some(n) ==> a.text() == decimal_of(n as nat) && (n <= i64::MAX ==> a.integer() == Some(
            n as i64,
        )) && (n > i64::MAX ==> a.integer() is None),
{
}

/// Values of different kinds are not the same; texts and truth values are if they are equal.
pub proof fn law_same_by_kind(s: Seq<char>, t: Seq<char>, x: bool, y: bool, m: NumberV, n: NumberV)
    ensures
        JsonV::Text(s).same(JsonV::Text(t)) == (s == t),
        JsonV::Bool(x).same(JsonV::Bool(y)) == (x == y),
        JsonV::Number(m).same(JsonV::Number(n)) == m.same(n),
        JsonV::Null.same(JsonV::Null),
        !JsonV::Null.same(JsonV::Bool(x)) && !JsonV::Null.same(JsonV::Number(n)) && !JsonV::Null.same(JsonV::Text(s)),
        !JsonV::Bool(x).same(JsonV::Null) && !JsonV::Bool(x).same(JsonV::Number(n)) && !JsonV::Bool(x).same(
            JsonV::Text(s),
        ),
        !JsonV::Number(n).same(JsonV::Null) && !JsonV::Number(n).same(JsonV::Bool(x)) && !JsonV::Number(n).same(
            JsonV::Text(s),
        ),
        !JsonV::Text(s).same(JsonV::Null) && !JsonV::Text(s).same(JsonV::Bool(x)) && !JsonV::Text(s).same(
            JsonV::Number(n),
        ),
{
}

/// Arrays are the same if they are equally long and the same item by item.
pub proof fn law_same_arrays(a: Seq<JsonV>, b: Seq<JsonV>)
    ensures
        JsonV::Array(a).same(JsonV::Array(b)) == (a.len() == b.len() && forall|i: int|
            0 <= i < a.len() ==> (#[trigger] a[i]).same(b[i])),
{
    reveal_with_fuel(JsonV::same, 2);
    let x = JsonV::Array(a);
    let y = JsonV::Array(b);
    if x.same(y) {
        assert forall|i: int| 0 <= i < a.len() implies (#[trigger] a[i]).same(b[i]) by {
            assert(x->Array_0[i].same(y->Array_0[i]));
        }
    }
    if a.len() == b.len() && forall|i: int| 0 <= i < a.len() ==> (#[trigger] a[i]).same(b[i]) {
        assert forall|i: int| 0 <= i < x->Array_0.len() implies (#[trigger] x->Array_0[i]).same(y->Array_0[i]) by {
            assert(a[i].same(b[i]));
        }
    }
}

/// Objects are the same exactly if they have equally many members and what the one has under a name
/// the other has too; nothing else is the same as an object, or as an array.
pub proof fn law_same_objects(a: Seq<(Seq<char>, JsonV)>, b: Seq<(Seq<char>, JsonV)>, l: Seq<JsonV>, value: JsonV)
    ensures
        JsonV::Object(a).same(JsonV::Object(b)) == (a.len() == b.len() && forall|i: int|
            0 <= i < a.len() ==> member_shared((#[trigger] a[i]), b)),
        !(value is Object) ==> !JsonV::Object(a).same(value) && !value.same(JsonV::Object(a)),
        !(value is Array) ==> !JsonV::Array(l).same(value) && !value.same(JsonV::Array(l)),
{
    reveal_with_fuel(JsonV::same, 2);
    let x = JsonV::Object(a);
    let y = JsonV::Object(b);
    if x.same(y) {
        assert forall|i: int| 0 <= i < a.len() implies member_shared(#[trigger] a[i], b) by {
            assert(x->Object_0[i] == a[i]);
        }
    }
    if a.len() == b.len() && forall|i: int| 0 <= i < a.len() ==> member_shared((#[trigger] a[i]), b) {
        assert forall|i: int| 0 <= i < x->Object_0.len() implies match lookup(b, (#[trigger] x->Object_0[i]).0) {
            Some(v) => x->Object_0[i].1.same(v),
            None => false,
        } by {
            assert(member_shared(a[i], b));
        }
        assert(x.same(y));
    }
}

/// A member stands in an object too, with the same value.
pub open spec fn member_shared(m: (Seq<char>, JsonV), b: Seq<(Seq<char>, JsonV)>) -> bool {
    JsonV::Object(b).get(m.0) is Some && m.1.same(JsonV::Object(b).get(m.0)->0)
}

/// What is merged into an object goes before what was there, and everything else stays; what is
/// stripped is gone, and nothing else.
pub proof fn law_members_change(value: JsonV, new: JsonV, keys: Seq<Seq<char>>, name: Seq<char>)
    requires
        value is Object,
        new is Object,
    ensures
        merged(value, new) is Object,
        merged(value, new).get(name) == if new.get(name) is Some {
            new.get(name)
        } else {
            value.get(name)
        },
        stripped(value, keys) is Object,
        stripped(value, keys).get(name) == if keys.contains(name) {
            None
        } else {
            value.get(name)
        },
{
    law_merged_lookup(value->Object_0, new->Object_0, name);
    law_stripped_lookup(value->Object_0, keys, name);
}

/// Only objects are merged and stripped; anything else stays as it is.
pub proof fn law_only_objects_change(value: JsonV, new: JsonV, keys: Seq<Seq<char>>)
    ensures
        !(value is Object) || !(new is Object) ==> merged(value, new) == value,
        !(value is Object) ==> stripped(value, keys) == value,
{
}

/// A member is found by its name in an object, and in nothing else; it is taken for a text, a
/// number, an array or an object only if it is one.
pub proof fn law_members(value: JsonV, e: Seq<(Seq<char>, JsonV)>, key: Seq<char>, i: int)
    requires
        names_distinct(e),
        0 <= i < e.len(),
    ensures
        !(value is Object) ==> value.get(key) is None,
        JsonV::Object(e).get(e[i].0) == Some(e[i].1),
        value.get_text(key) == match value.get(key) {
            Some(JsonV::Text(t)) => Some(t),
            _ => None,
        },
        value.get_number(key) == match value.get(key) {
            Some(JsonV::Number(n)) => Some(n),
            _ => None,
        },
        value.get_array(key) == match value.get(key) {
            Some(JsonV::Array(l)) => Some(l),
            _ => None,
        },
        value.get_object(key) == match value.get(key) {
            Some(JsonV::Object(o)) => Some(JsonV::Object(o)),
            _ => None,
        },
{
    lemma_last_at_is(e, e[i].0, i);
}

// ---------------------------------------------------------------------------------------------
// Numbers in decimal

/// A number is written digit by digit, the highest first, without leading zeros; a negative one
/// behind a minus sign.
pub proof fn law_written_digit_by_digit(n: nat, d: nat)
    requires
        d < 10,
    ensures
        decimal_of(d) == seq![('0' as u32 + d) as char],
        n > 0 ==> decimal_of(10 * n + d) == decimal_of(n).push(('0' as u32 + d) as char),
        n > 0 ==> signed_decimal_of(-(n as int)) == seq!['-'] + decimal_of(n),
        signed_decimal_of(n as int) == decimal_of(n),
{
    if n > 0 {
        assert((10 * n + d) / 10 == n);
        assert((10 * n + d) % 10 == d);
    }
}

// ---------------------------------------------------------------------------------------------
// Multivectors

/// All rows have one length.
pub open spec fn all_as_long(rows: Seq<Seq<Real>>, dim: nat) -> bool {
    forall|i: int| 0 <= i < rows.len() ==> (#[trigger] rows[i]).len() == dim
}

/// Rows are a multivector exactly if there are some and all have one length that is not zero; what
/// is no multivector has a fault, and what is one has none.
pub proof fn law_multivector_rows(rows: Seq<Seq<Real>>)
    requires
        rows.len() <= usize::MAX,
    ensures
        is_multivector(rows) == (rows.len() > 0 && exists|dim: nat| dim > 0 && #[trigger] all_as_long(rows, dim)),
        is_multivector(rows) == !exists|e: MultiVectorError| #[trigger] is_fault(rows, e),
{
    if is_multivector(rows) {
        let dim = rows[0].len();
        assert(dim > 0 && all_as_long(rows, dim));
    }
    if rows.len() > 0 && exists|dim: nat| dim > 0 && #[trigger] all_as_long(rows, dim) {
        let dim = choose|dim: nat| dim > 0 && #[trigger] all_as_long(rows, dim);
        assert(rows[0].len() == dim);
    }
    if !is_multivector(rows) {
        if rows.len() == 0 {
            assert(is_fault(rows, MultiVectorError::Empty));
        } else if rows[0].len() == 0 {
            assert(is_fault(rows, MultiVectorError::ZeroDimension));
        } else {
            let row = lemma_first_other_row(rows, 1);
            assert(is_fault(rows, MultiVectorError::RowLength { row: row as usize }));
        }
    }
}

proof fn lemma_first_other_row(rows: Seq<Seq<Real>>, from: int) -> (row: int)
    requires
        1 <= from <= rows.len(),
        forall|i: int| 0 <= i < from ==> (#[trigger] rows[i]).len() == rows[0].len(),
        exists|i: int| 0 <= i < rows.len() && (#[trigger] rows[i]).len() != rows[0].len(),
    ensures
        from <= row < rows.len(),
        rows[row].len() != rows[0].len(),
        forall|i: int| 0 <= i < row ==> (#[trigger] rows[i]).len() == rows[0].len(),
    decreases rows.len() - from,
{
    if from < rows.len() && rows[from].len() != rows[0].len() {
        from
    } else {
        let i = choose|i: int| 0 <= i < rows.len() && (#[trigger] rows[i]).len() != rows[0].len();
        assert(i > from);
        lemma_first_other_row(rows, from + 1)
    }
}

/// What is wrong with rows is said: that there are none, that the first has no components, or which
/// is the first of another length; one fault and no other.
pub proof fn law_fault_told(rows: Seq<Seq<Real>>, row: usize, e: MultiVectorError, f: MultiVectorError)
    ensures
        is_fault(rows, MultiVectorError::Empty) == (rows.len() == 0),
        is_fault(rows, MultiVectorError::ZeroDimension) == (rows.len() > 0 && rows[0].len() == 0),
        is_fault(rows, MultiVectorError::RowLength { row }) ==> 0 < row < rows.len() && rows[row as int].len()
            != rows[0].len() && forall|i: int| 0 <= i < row ==> (#[trigger] rows[i]).len() == rows[0].len(),
        is_fault(rows, e) && is_fault(rows, f) ==> e == f,
{
    if let (MultiVectorError::RowLength { row: a }, MultiVectorError::RowLength { row: b }) = (e, f) {
        if is_fault(rows, e) && is_fault(rows, f) {
            if a < b {
                assert(rows[a as int].len() == rows[0].len());
            }
            if b < a {
                assert(rows[b as int].len() == rows[0].len());
            }
        }
    }
}

/// The key of a point is the text that identifies it, or its number in decimal; two numbers never
/// have one key.
pub proof fn law_point_keys(s: Seq<char>, n: u64, m: u64)
    ensures
        PointIdV::String(s).key() == s,
        PointIdV::Uuid(s).key() == s,
        PointIdV::Integer(n).key() == decimal_of(n as nat),
        (PointIdV::Integer(n).key() == PointIdV::Integer(m).key()) == (n == m),
{
    law_decimal_read_back(n);
    law_decimal_read_back(m);
}

} // verus!
