//! What requests that read a collection answer.

use vstd::prelude::*;
use crate::api::{key_of_json, record_of, RecordV, Shown};
use crate::entries::{
    last_at, law_put_keeps_names_distinct, lemma_last_at, lemma_last_at_is, lookup, names_distinct,
};
use crate::json::{JsonV, NumberV};
use crate::matching::filter_matches;
use crate::order::{leads, lemma_full, orders, ranked};
use crate::point::{PointIdV, PointV};
use crate::rest_read::{
    count_ranks, facet_answers, facet_of, in_order, law_tally_counts, lemma_passed,
    lemma_tally_bound, looked_up, matching_points, passed, scroll_answers, scroll_number,
    scroll_numbers, scroll_offset, shows_page, tally, with_facet,
};
use crate::store::point_under;
use crate::text::{law_signed_decimal_read_back, read_i64_of, signed_decimal_of};

verus! {

// ---------------------------------------------------------------------------------------------
// Scrolling

/// A filter lets through exactly the points that match it, in their order; without a filter all
/// points are listed.
pub proof fn law_matching_points(points: Seq<PointV>, filter: Option<JsonV>)
    ensures
        filter is None ==> matching_points(points, filter) == points,
        filter is Some ==> matching_points(points, filter) == points.filter(
            |p: PointV| filter_matches(p, filter->0),
        ),
    decreases points.len(),
{
    reveal(Seq::filter);
    if filter is Some {
        let keep = |p: PointV| filter_matches(p, filter->0);
        if points.len() > 0 {
            law_matching_points(points.drop_last(), filter);
        } else {
            assert(matching_points(points, filter) =~= points.filter(keep));
        }
    }
}

/// The points that match a filter, all of them without one.
pub open spec fn let_through(points: Seq<PointV>, filter: Option<JsonV>) -> Seq<PointV> {
    points.filter(|p: PointV| filter is None || filter_matches(p, filter->0))
}

/// The number that a point is listed by: an integer as a signed one, that is itself up to the
/// largest of those, and a text by the number that it is.
pub proof fn law_listed_by_number(n: u64, m: i64, s: Seq<char>, x: NumberV)
    ensures
        n <= i64::MAX ==> scroll_number(PointIdV::Integer(n)) == n,
        n > i64::MAX ==> scroll_number(PointIdV::Integer(n)) == n - 0x1_0000_0000_0000_0000,
        scroll_number(PointIdV::String(signed_decimal_of(m as int))) == m,
        read_i64_of(s) is None ==> scroll_number(PointIdV::String(s)) == 0,
        scroll_number(PointIdV::Uuid(s)) == 0,
        scroll_offset(Some(JsonV::Text(signed_decimal_of(m as int)))) == Some(m),
        read_i64_of(s) is None ==> scroll_offset(Some(JsonV::Text(s))) is None,
        scroll_offset(Some(JsonV::Number(x))) == x.integer(),
        scroll_offset(None) is None,
{
    law_signed_decimal_read_back(m);
}

/// `listed` are the points of a list, each once, by their numbers, and where those are equal in
/// the order of the list.
pub open spec fn listed_at(points: Seq<PointV>, places: Seq<int>, listed: Seq<PointV>) -> bool {
    &&& listed.len() == points.len()
    &&& places.len() == points.len()
    &&& forall|i: int| 0 <= i < listed.len() ==> 0 <= #[trigger] places[i] < points.len() && listed[i] == points[places[i]]
    &&& forall|i: int, j: int|
        0 <= i < j < listed.len() ==> {
            ||| scroll_number(points[#[trigger] places[i]].id) < scroll_number(points[#[trigger] places[j]].id)
            ||| scroll_number(points[places[i]].id) == scroll_number(points[places[j]].id) && places[i] < places[j]
        }
}

pub open spec fn lists_all(points: Seq<PointV>, listed: Seq<PointV>) -> bool {
    exists|places: Seq<int>| #[trigger] listed_at(points, places, listed)
}

proof fn lemma_skip_is_filter(listed: Seq<PointV>, o: i64, p: int)
    requires
        0 <= p <= listed.len(),
        forall|i: int| 0 <= i < p ==> scroll_number((#[trigger] listed[i]).id) <= o,
        forall|i: int| p <= i < listed.len() ==> scroll_number((#[trigger] listed[i]).id) > o,
    ensures
        listed.filter(|q: PointV| scroll_number(q.id) > o) == listed.skip(p),
    decreases listed.len(),
{
    reveal(Seq::filter);
    let keep = |q: PointV| scroll_number(q.id) > o;
    if listed.len() == 0 {
        assert(listed.filter(keep) =~= listed.skip(p));
    } else {
        let rest = listed.drop_last();
        let last = listed.last();
        assert(last == listed[listed.len() - 1]);
        assert forall|i: int| 0 <= i < rest.len() implies #[trigger] rest[i] == listed[i] by {}
        if p < listed.len() {
            lemma_skip_is_filter(rest, o, p);
            assert(listed.skip(p) =~= rest.skip(p).push(last));
        } else {
            lemma_skip_is_filter(rest, o, p - 1);
            assert(rest.skip(p - 1) =~= Seq::empty());
            assert(listed.skip(p) =~= Seq::empty());
        }
    }
}

/// What is listed behind an offset.
pub open spec fn listed_behind(listed: Seq<PointV>, offset: Option<i64>) -> Seq<PointV> {
    listed.filter(|q: PointV| offset is None || scroll_number(q.id) > offset->0)
}

/// A page holds the first of what is listed, and says where the next one begins if more follows.
pub open spec fn page_holds(
    rest: Seq<PointV>,
    limit: usize,
    shown: Shown,
    page: Seq<RecordV>,
    next: Option<i64>,
) -> bool {
    &&& page.len() == if limit <= rest.len() {
        limit as nat
    } else {
        rest.len()
    }
    &&& forall|i: int|
        0 <= i < page.len() ==> #[trigger] page[i] == record_of(rest[i], shown, JsonV::Object(Seq::empty()))
    &&& next == if 0 < limit < rest.len() {
        Some(scroll_number(rest[limit - 1].id))
    } else {
        None
    }
}

/// A page shows the points that match, by their numbers, those above the offset, as many as there
/// are up to the limit; and it says where the next one begins exactly if more follow.
pub proof fn law_scroll_page(
    points: Seq<PointV>,
    limit: usize,
    offset: Option<i64>,
    filter: Option<JsonV>,
    shown: Shown,
    page: Seq<RecordV>,
    next: Option<i64>,
)
    requires
        scroll_answers(points, limit, offset, filter, shown, page, next),
        points.len() <= usize::MAX,
    ensures
        exists|listed: Seq<PointV>| #[trigger]
            lists_all(let_through(points, filter), listed) && page_holds(
                listed_behind(listed, offset),
                limit,
                shown,
                page,
                next,
            ),
{
    let keep = |p: PointV| filter is None || filter_matches(p, filter->0);
    law_matching_points(points, filter);
    let matching = matching_points(points, filter);
    assert(matching == points.filter(keep)) by {
        if filter is None {
            lemma_filter_all(points, keep);
        } else {
            assert(keep =~= |p: PointV| filter_matches(p, filter->0));
        }
    }
    points.lemma_filter_len(keep);
    let ranks = scroll_numbers(matching);
    let order = choose|order: Seq<usize>| #[trigger]
        orders(ranks, order) && shows_page(in_order(matching, order), limit, offset, shown, page, next);
    let listed = in_order(matching, order);
    let places = Seq::new(order.len(), |i: int| order[i] as int);
    assert forall|i: int, j: int| 0 <= i < j < listed.len() implies {
        ||| scroll_number(matching[#[trigger] places[i]].id) < scroll_number(matching[#[trigger] places[j]].id)
        ||| scroll_number(matching[places[i]].id) == scroll_number(matching[places[j]].id) && places[i] < places[j]
    } by {
        assert(ranked(ranks, order[i] as int).precedes(ranked(ranks, order[j] as int)));
        assert(ranks[order[i] as int] == scroll_number(matching[places[i]].id));
        assert(ranks[order[j] as int] == scroll_number(matching[places[j]].id));
    }
    assert(listed_at(matching, places, listed));
    assert(lists_all(matching, listed));
    let numbers = scroll_numbers(listed);
    let start = passed(numbers, offset) as int;
    assert forall|i: int, j: int| 0 <= i < j < numbers.len() implies numbers[i] <= numbers[j] by {
        assert(listed[i] == matching[places[i]] && listed[j] == matching[places[j]]);
    }
    let rest = listed_behind(listed, offset);
    match offset {
        None => {
            lemma_filter_all(listed, |q: PointV| offset is None || scroll_number(q.id) > offset->0);
            assert(listed.skip(0) =~= listed);
        },
        Some(o) => {
            lemma_passed(numbers, o);
            assert forall|i: int| 0 <= i < start implies scroll_number((#[trigger] listed[i]).id) <= o by {
                assert(numbers[i] <= o);
            }
            assert forall|i: int| start <= i < listed.len() implies scroll_number((#[trigger] listed[i]).id) > o by {
                assert(numbers[start] > o);
                if start < i {
                    assert(numbers[start] <= numbers[i]);
                }
                assert(numbers[i] == scroll_number(listed[i].id));
            }
            lemma_skip_is_filter(listed, o, start);
            assert((|q: PointV| offset is None || scroll_number(q.id) > offset->0) =~= (|q: PointV|
                scroll_number(q.id) > o));
        },
    }
    assert(rest == listed.skip(start));
    assert(start <= listed.len());
    assert forall|i: int| 0 <= i < page.len() implies #[trigger] page[i] == record_of(
        rest[i],
        shown,
        JsonV::Object(Seq::empty()),
    ) by {
        assert(rest[i] == listed[start + i]);
    }
    if 0 < limit < rest.len() {
        assert(numbers[start + limit - 1] == scroll_number(listed[start + limit - 1].id));
        assert(rest[limit - 1] == listed[start + limit - 1]);
    }
    assert(page_holds(rest, limit, shown, page, next));
    assert(lists_all(let_through(points, filter), listed));
}

pub proof fn lemma_filter_all<T>(s: Seq<T>, keep: spec_fn(T) -> bool)
    requires
        forall|i: int| 0 <= i < s.len() ==> keep(#[trigger] s[i]),
    ensures
        s.filter(keep) == s,
    decreases s.len(),
{
    reveal(Seq::filter);
    if s.len() > 0 {
        let rest = s.drop_last();
        assert forall|i: int| 0 <= i < rest.len() implies keep(#[trigger] rest[i]) by {
            assert(rest[i] == s[i]);
        }
        lemma_filter_all(rest, keep);
        assert(keep(s[s.len() - 1]));
        assert(rest.push(s.last()) =~= s);
    }
}

// ---------------------------------------------------------------------------------------------
// Single points

/// Of the identifiers that are looked up, every one that leads to a point is answered with that
/// point, in the order asked for, and no other.
pub proof fn law_all_looked_up(points: Seq<PointV>, ids: Seq<JsonV>, shown: Shown)
    ensures
        looked_up(points, ids, shown) == ids.filter_map(
            |id: JsonV|
                if key_of_json(id) is Some && point_under(points, key_of_json(id)->0) is Some {
                    Some((id, record_of(point_under(points, key_of_json(id)->0)->0, shown, JsonV::Null)))
                } else {
                    None
                },
        ),
    decreases ids.len(),
{
    reveal(Seq::filter_map);
    let f = |id: JsonV|
        if key_of_json(id) is Some && point_under(points, key_of_json(id)->0) is Some {
            Some((id, record_of(point_under(points, key_of_json(id)->0)->0, shown, JsonV::Null)))
        } else {
            None
        };
    if ids.len() > 0 {
        law_all_looked_up(points, ids.drop_last(), shown);
        let rest = ids.drop_last().filter_map(f);
        if let Some(x) = f(ids.last()) {
            assert(rest.push(x) =~= rest + seq![x]);
        }
    } else {
        assert(looked_up(points, ids, shown) =~= ids.filter_map(f));
    }
}

/// The key that an identifier in JSON leads to: a text as it is, a number as it is written.
pub proof fn law_key_of_json(id: JsonV)
    ensures
        key_of_json(id) == match id {
            JsonV::Text(s) => Some(s),
            JsonV::Number(n) => Some(n.text()),
            _ => None,
        },
{
}

// ---------------------------------------------------------------------------------------------
// Facets

/// What a point is counted under: what its payload has at the key, a text, a number as it is
/// written, or a truth value; a point without such a value is not counted.
pub proof fn law_facet_of(point: PointV, key: Seq<char>)
    ensures
        point.payload is None ==> facet_of(point, key) is None,
        point.payload is Some ==> facet_of(point, key) == match point.payload->0.get(key) {
            Some(JsonV::Text(s)) => Some(s),
            Some(JsonV::Number(n)) => Some(n.text()),
            Some(JsonV::Bool(true)) => Some("true"@),
            Some(JsonV::Bool(false)) => Some("false"@),
            _ => None,
        },
{
}

/// How many points have a text at a key.
pub open spec fn points_having(points: Seq<PointV>, key: Seq<char>, text: Seq<char>) -> nat {
    points.filter(|p: PointV| facet_of(p, key) == Some(text)).len()
}

proof fn lemma_with_facet(points: Seq<PointV>, key: Seq<char>, text: Seq<char>)
    ensures
        with_facet(points, key, text) == points_having(points, key, text),
    decreases points.len(),
{
    reveal(Seq::filter);
    if points.len() > 0 {
        lemma_with_facet(points.drop_last(), key, text);
    }
}

proof fn lemma_tally_names(points: Seq<PointV>, key: Seq<char>)
    ensures
        names_distinct(tally(points, key)),
    decreases points.len(),
{
    if points.len() > 0 {
        lemma_tally_names(points.drop_last(), key);
        let rest = tally(points.drop_last(), key);
        if let Some(text) = facet_of(points.last(), key) {
            law_put_keeps_names_distinct(
                rest,
                text,
                match lookup(rest, text) {
                    Some(n) => (n + 1) as u64,
                    None => 1,
                },
            );
        }
    }
}

/// Facet counts list texts, none twice, each with the number of points that have it, the highest
/// numbers first; a text that points have and that is not listed is not listed because there is no
/// room for it, and no more points have it than any that is.
pub proof fn law_facets_count_points(points: Seq<PointV>, key: Seq<char>, limit: usize, r: Seq<(Seq<char>, u64)>)
    requires
        facet_answers(points, key, limit, r),
        points.len() < i64::MAX,
        points.len() <= usize::MAX,
    ensures
        r.len() <= limit,
        forall|i: int| 0 <= i < r.len() ==> 0 < (#[trigger] r[i]).1 == points_having(points, key, r[i].0),
        forall|i: int, j: int|
            0 <= i < j < r.len() ==> (#[trigger] r[i]).0 != (#[trigger] r[j]).0 && r[i].1 >= r[j].1,
        forall|text: Seq<char>|
            points_having(points, key, text) > 0 && !names_listed(r, text) ==> r.len() == limit && forall|j: int|
                0 <= j < r.len() ==> (#[trigger] r[j]).1 >= #[trigger] points_having(points, key, text),
{
    let all = tally(points, key);
    let ranks = count_ranks(all);
    let order = choose|order: Seq<usize>| #[trigger]
        leads(ranks, limit as nat, order) && r == Seq::new(order.len(), |i: int| all[order[i] as int]);
    lemma_tally_names(points, key);
    lemma_tally_bound(points, key);
    lemma_tally_len(points, key);
    assert forall|i: int| 0 <= i < r.len() implies 0 < (#[trigger] r[i]).1 == points_having(points, key, r[i].0) by {
        let p = order[i] as int;
        law_tally_counts(points, key, all[p].0);
        lemma_with_facet(points, key, all[p].0);
        assert forall|j: int| p < j < all.len() implies (#[trigger] all[j]).0 != all[p].0 by {
            assert(all[p].0 != all[j].0);
        }
        lemma_last_at_is(all, all[p].0, p);
        assert(1 <= all[p].1 <= points.len());
    }
    assert forall|i: int, j: int| 0 <= i < j < r.len() implies (#[trigger] r[i]).0 != (#[trigger] r[j]).0 && r[i].1
        >= r[j].1 by {
        let p = order[i] as int;
        let q = order[j] as int;
        assert(ranked(ranks, p).precedes(ranked(ranks, q)));
        assert(1 <= all[p].1 <= points.len());
        assert(1 <= all[q].1 <= points.len());
        if p < q {
            assert(all[p].0 != all[q].0);
        } else {
            assert(all[q].0 != all[p].0);
        }
    }
    assert forall|text: Seq<char>| points_having(points, key, text) > 0 && !names_listed(r, text) implies r.len() == limit
        && forall|j: int| 0 <= j < r.len() ==> (#[trigger] r[j]).1 >= #[trigger] points_having(points, key, text) by {
        law_tally_counts(points, key, text);
        lemma_with_facet(points, key, text);
        lemma_last_at(all, text);
        let v = last_at(all, text)->0;
        assert(all[v].1 == points_having(points, key, text));
        assert(!order.contains(v as usize)) by {
            if order.contains(v as usize) {
                let x = choose|x: int| 0 <= x < order.len() && order[x] == v as usize;
                assert(r[x].0 == text);
            }
        }
        assert forall|j: int| 0 <= j < r.len() implies (#[trigger] r[j]).1 >= points_having(points, key, text) by {
            let p = order[j] as int;
            assert(ranked(ranks, p).precedes(ranked(ranks, v)));
            assert(1 <= all[p].1 <= points.len());
            assert(1 <= all[v].1 <= points.len());
        }
        if r.len() != limit {
            lemma_full(ranks, order, v as usize);
        }
    }
}

/// A text is among those listed.
pub open spec fn names_listed(r: Seq<(Seq<char>, u64)>, text: Seq<char>) -> bool {
    exists|i: int| 0 <= i < r.len() && (#[trigger] r[i]).0 == text
}

proof fn lemma_tally_len(points: Seq<PointV>, key: Seq<char>)
    ensures
        tally(points, key).len() <= points.len(),
    decreases points.len(),
{
    if points.len() > 0 {
        lemma_tally_len(points.drop_last(), key);
        let rest = tally(points.drop_last(), key);
        if let Some(text) = facet_of(points.last(), key) {
            lemma_last_at(rest, text);
        }
    }
}

} // verus!
