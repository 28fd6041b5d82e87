//! Requests that read a collection without searching it.

use vstd::prelude::*;
use crate::api::{json_key, key_of_json, record, record_of, Record, RecordV, Shown};
use crate::collection::Collection;
use crate::entries::{
    last_at, law_put_leaves_others, law_put_then_lookup, lemma_last_at, lookup, put, set_named,
    value_named, viewed,
};
use crate::json::{fields, items, lemma_object, Json, JsonV};
use crate::lists::lemma_prefix_grows;
use crate::matching::{filter_matches, matches_filter};
use crate::order::{leads, lemma_take_leads, orders, sort_order};
use crate::point::{payload_of, Point, PointId, PointIdV, PointV};
use crate::scoring::points_at;
use crate::store::{point_under, points_view};
use crate::text::{copied, read_i64, read_i64_of};

verus! {

/// Records in a list.
pub open spec fn records_of(v: Seq<Record>) -> Seq<RecordV> {
    Seq::new(v.len(), |i: int| v[i]@)
}

// ---------------------------------------------------------------------------------------------
// Scrolling

/// A request for a page of points.
pub struct ScrollRequest {
    pub limit: Option<usize>,
    pub offset: Option<Json>,
    pub with_payload: Option<bool>,
    pub with_vector: Option<bool>,
    pub filter: Option<Json>,
}

/// A page of points, and where the next one begins.
pub struct ScrollPage {
    pub points: Vec<Record>,
    pub next_page_offset: Option<i64>,
}

/// A flag of a request, or what it is without one.
pub open spec fn flag(given: Option<bool>, otherwise: bool) -> bool {
    match given {
        Some(b) => b,
        None => otherwise,
    }
}

/// A number of a request, or what it is without one.
pub open spec fn amount(given: Option<usize>, otherwise: usize) -> usize {
    match given {
        Some(n) => n,
        None => otherwise,
    }
}

pub fn flag_or(given: Option<bool>, otherwise: bool) -> (r: bool)
    ensures
        r == flag(given, otherwise),
{
    match given {
        Some(b) => b,
        None => otherwise,
    }
}

pub fn amount_or(given: Option<usize>, otherwise: usize) -> (r: usize)
    ensures
        r == amount(given, otherwise),
{
    match given {
        Some(n) => n,
        None => otherwise,
    }
}

/// The number that points are listed by: an unsigned integer read as a signed one of the same 64
/// bits, a text that is a number as that number, anything else as 0.
pub open spec fn scroll_number(id: PointIdV) -> i64 {
    match id {
        PointIdV::Integer(n) => if n <= i64::MAX {
            n as i64
        } else {
            (n - 0x1_0000_0000_0000_0000) as i64
        },
        PointIdV::String(s) => match read_i64_of(s) {
            Some(n) => n,
            None => 0,
        },
        PointIdV::Uuid(_) => 0,
    }
}

/// The number behind which a page begins: a number, or a text that is one.
pub open spec fn scroll_offset(offset: Option<JsonV>) -> Option<i64> {
    match offset {
        Some(JsonV::Number(n)) => n.integer(),
        Some(JsonV::Text(s)) => read_i64_of(s),
        _ => None,
    }
}

/// The points that a filter in JSON lets through, in their order.
pub open spec fn matching_points(points: Seq<PointV>, filter: Option<JsonV>) -> Seq<PointV>
    decreases points.len(),
{
    match filter {
        None => points,
        Some(f) => if points.len() == 0 {
            Seq::empty()
        } else if filter_matches(points.last(), f) {
            matching_points(points.drop_last(), filter).push(points.last())
        } else {
            matching_points(points.drop_last(), filter)
        },
    }
}

/// The numbers that points are listed by.
pub open spec fn scroll_numbers(points: Seq<PointV>) -> Seq<i64> {
    Seq::new(points.len(), |i: int| scroll_number(points[i].id))
}

/// How many of sorted numbers, from the front, are not above the offset.
pub open spec fn passed(numbers: Seq<i64>, offset: Option<i64>) -> nat
    decreases numbers.len(),
{
    match offset {
        None => 0,
        Some(o) => if numbers.len() == 0 || numbers[0] > o {
            0
        } else {
            1 + passed(numbers.skip(1), offset)
        },
    }
}

/// The points in the order in which they are listed.
pub open spec fn in_order(points: Seq<PointV>, order: Seq<usize>) -> Seq<PointV> {
    Seq::new(order.len(), |i: int| points[order[i] as int])
}

/// What a request for a page answers: the points that match, listed by their numbers and, where
/// those are equal, in the order of the collection; from the first one above the offset, at most
/// `limit` of them; and, if the page is full and more follow, the number of its last point.
pub open spec fn scroll_answers(
    points: Seq<PointV>,
    limit: usize,
    offset: Option<i64>,
    filter: Option<JsonV>,
    shown: Shown,
    page: Seq<RecordV>,
    next: Option<i64>,
) -> bool {
    exists|order: Seq<usize>| #[trigger]
        orders(scroll_numbers(matching_points(points, filter)), order) && shows_page(
            in_order(matching_points(points, filter), order),
            limit,
            offset,
            shown,
            page,
            next,
        )
}

/// The page of a list of points.
pub open spec fn shows_page(
    listed: Seq<PointV>,
    limit: usize,
    offset: Option<i64>,
    shown: Shown,
    page: Seq<RecordV>,
    next: Option<i64>,
) -> bool {
    let numbers = scroll_numbers(listed);
    let start = passed(numbers, offset);
    &&& page.len() == if start + limit <= listed.len() {
        limit as nat
    } else if start <= listed.len() {
        (listed.len() - start) as nat
    } else {
        0
    }
    &&& forall|i: int|
        0 <= i < page.len() ==> #[trigger] page[i] == record_of(
            listed[start + i],
            shown,
            JsonV::Object(Seq::empty()),
        )
    &&& next == if limit > 0 && start + limit < listed.len() {
        Some(numbers[start + limit - 1])
    } else {
        None
    }
}

/// How many sorted numbers are passed: exactly those that are not above the offset.
pub proof fn lemma_passed(numbers: Seq<i64>, o: i64)
    requires
        forall|i: int, j: int| 0 <= i < j < numbers.len() ==> numbers[i] <= numbers[j],
    ensures
        passed(numbers, Some(o)) <= numbers.len(),
        forall|i: int| 0 <= i < passed(numbers, Some(o)) ==> #[trigger] numbers[i] <= o,
        passed(numbers, Some(o)) < numbers.len() ==> numbers[passed(numbers, Some(o)) as int] > o,
    decreases numbers.len(),
{
    if numbers.len() > 0 && numbers[0] <= o {
        let rest = numbers.skip(1);
        assert forall|i: int, j: int| 0 <= i < j < rest.len() implies rest[i] <= rest[j] by {
            assert(rest[i] == numbers[i + 1] && rest[j] == numbers[j + 1]);
        }
        lemma_passed(rest, o);
        assert forall|i: int| 0 <= i < passed(numbers, Some(o)) implies #[trigger] numbers[i] <= o by {
            if i > 0 {
                assert(rest[i - 1] == numbers[i]);
            }
        }
        let n = passed(rest, Some(o)) as int;
        if n < rest.len() {
            assert(rest[n] == numbers[n + 1]);
        }
    }
}

/// Where no two of the matching points are listed by one number, the page that begins at the
/// offset a page gives begins right behind that page; a page that gives none is the last one.
pub proof fn law_scroll_continues(
    points: Seq<PointV>,
    filter: Option<JsonV>,
    order: Seq<usize>,
    limit: usize,
    offset: Option<i64>,
    shown: Shown,
    page: Seq<RecordV>,
    next: Option<i64>,
)
    requires
        orders(scroll_numbers(matching_points(points, filter)), order),
        shows_page(in_order(matching_points(points, filter), order), limit, offset, shown, page, next),
        forall|i: int, j: int|
            0 <= i < j < matching_points(points, filter).len() ==> #[trigger] scroll_numbers(
                matching_points(points, filter),
            )[i] != #[trigger] scroll_numbers(matching_points(points, filter))[j],
        limit > 0,
    ensures
        match next {
            Some(n) => passed(scroll_numbers(in_order(matching_points(points, filter), order)), Some(n)) == passed(
                scroll_numbers(in_order(matching_points(points, filter), order)),
                offset,
            ) + limit,
            None => passed(scroll_numbers(in_order(matching_points(points, filter), order)), offset) + page.len()
                == matching_points(points, filter).len(),
        },
{
    let matching = matching_points(points, filter);
    let ranks = scroll_numbers(matching);
    let listed = in_order(matching, order);
    let numbers = scroll_numbers(listed);
    lemma_passed_bound(numbers, offset);
    assert forall|i: int, j: int| 0 <= i < j < numbers.len() implies numbers[i] < numbers[j] by {
        assert(numbers[i] == ranks[order[i] as int]);
        assert(numbers[j] == ranks[order[j] as int]);
        assert(order[i] != order[j]);
        if order[i] < order[j] {
            assert(ranks[order[i] as int] != ranks[order[j] as int]);
        } else {
            assert(ranks[order[j] as int] != ranks[order[i] as int]);
        }
    }
    if let Some(n) = next {
        let start = passed(numbers, offset) as int;
        lemma_passed(numbers, n);
        let p = passed(numbers, Some(n)) as int;
        let at = start + limit - 1;
        assert(numbers[at] == n);
        if p < at + 1 {
            assert(numbers[p] > n);
            if p < at {
                assert(numbers[p] < numbers[at]);
            }
        }
        if p > at + 1 {
            assert(numbers[at + 1] <= n);
            assert(numbers[at] < numbers[at + 1]);
        }
    }
}

fn number_of(id: &PointId) -> (r: i64)
    ensures
        r == scroll_number(id@),
{
    match id {
        PointId::Integer(n) => if *n <= i64::MAX as u64 {
            *n as i64
        } else {
            (*n - 0x8000_0000_0000_0000u64) as i64 + i64::MIN
        },
        PointId::String(s) => match read_i64(s.as_str()) {
            Some(n) => n,
            None => 0,
        },
        PointId::Uuid(_) => 0,
    }
}

proof fn lemma_passed_bound(numbers: Seq<i64>, offset: Option<i64>)
    ensures
        passed(numbers, offset) <= numbers.len(),
    decreases numbers.len(),
{
    if let Some(o) = offset {
        if numbers.len() > 0 && numbers[0] <= o {
            lemma_passed_bound(numbers.skip(1), offset);
        }
    }
}

/// Where the points stand that a filter in JSON lets through.
fn select_matching(points: &Vec<Point>, filter: &Option<Json>) -> (r: Vec<usize>)
    ensures
        points_at(points_view(points@), r@) == matching_points(
            points_view(points@),
            payload_of(*filter),
        ),
        forall|j: int| 0 <= j < r@.len() ==> #[trigger] r@[j] < points@.len(),
{
    let mut r: Vec<usize> = Vec::new();
    let ghost all = points_view(points@);
    let mut i: usize = 0;
    match filter {
        None => {
            while i < points.len()
                invariant
                    i <= points@.len(),
                    r@.len() == i,
                    forall|j: int| 0 <= j < i ==> #[trigger] r@[j] == j,
                decreases points@.len() - i,
            {
                r.push(i);
                i += 1;
            }
            assert(points_at(all, r@) =~= all);
        },
        Some(f) => {
            assert(points_at(all, r@) =~= matching_points(all.take(0), payload_of(*filter)));
            while i < points.len()
                invariant
                    i <= points@.len(),
                    all == points_view(points@),
                    payload_of(*filter) == Some(f@),
                    points_at(all, r@) == matching_points(
                        all.take(i as int),
                        payload_of(*filter),
                    ),
                    forall|j: int| 0 <= j < r@.len() ==> #[trigger] r@[j] < points@.len(),
                decreases points@.len() - i,
            {
                proof {
                    lemma_prefix_grows(all, i as int);
                }
                let ghost r0 = r@;
                if matches_filter(&points[i], f) {
                    r.push(i);
                    assert(points_at(all, r@) =~= points_at(all, r0).push(
                        all[i as int],
                    ));
                }
                i += 1;
            }
            assert(all.take(i as int) =~= all);
        },
    }
    r
}

fn read_offset(offset: &Option<Json>) -> (r: Option<i64>)
    ensures
        r == scroll_offset(payload_of(*offset)),
{
    match offset {
        Some(Json::Number(n)) => n.as_i64(),
        Some(Json::Text(s)) => read_i64(s.as_str()),
        _ => None,
    }
}

/// The numbers that the points at `places` are listed by.
fn number_points(points: &Vec<Point>, places: &Vec<usize>) -> (r: Vec<i64>)
    requires
        forall|j: int| 0 <= j < places@.len() ==> #[trigger] places@[j] < points@.len(),
    ensures
        r@ == scroll_numbers(points_at(points_view(points@), places@)),
{
    let ghost chosen = points_at(points_view(points@), places@);
    let mut r: Vec<i64> = Vec::new();
    let mut i: usize = 0;
    while i < places.len()
        invariant
            i <= places@.len(),
            forall|j: int| 0 <= j < places@.len() ==> #[trigger] places@[j] < points@.len(),
            chosen == points_at(points_view(points@), places@),
            r@.len() == i,
            forall|j: int| 0 <= j < i ==> #[trigger] r@[j] == scroll_number(chosen[j].id),
        decreases places@.len() - i,
    {
        r.push(number_of(&points[places[i]].id));
        i += 1;
    }
    assert(r@ =~= scroll_numbers(chosen));
    r
}

/// Numbers in the order in which they are listed.
pub open spec fn numbers_in_order(ranks: Seq<i64>, order: Seq<usize>) -> Seq<i64> {
    Seq::new(order.len(), |i: int| ranks[order[i] as int])
}

/// Finds the first number above the offset.
fn find_start(ranks: &Vec<i64>, order: &Vec<usize>, offset: Option<i64>) -> (r: usize)
    requires
        forall|j: int| 0 <= j < order@.len() ==> #[trigger] order@[j] < ranks@.len(),
    ensures
        r == passed(numbers_in_order(ranks@, order@), offset),
        r <= order@.len(),
{
    let ghost nums = numbers_in_order(ranks@, order@);
    let o: i64 = match offset {
        Some(o) => o,
        None => {
            return 0;
        },
    };
    let n: usize = order.len();
    let mut start: usize = 0;
    assert(nums.skip(0) =~= nums);
    while start < n && ranks[order[start]] <= o
        invariant
            start <= n,
            n == order@.len(),
            nums == numbers_in_order(ranks@, order@),
            offset == Some(o),
            forall|j: int| 0 <= j < order@.len() ==> #[trigger] order@[j] < ranks@.len(),
            passed(nums, offset) == start + passed(nums.skip(start as int), offset),
        decreases n - start,
    {
        assert(nums.skip(start as int)[0] == nums[start as int]);
        assert(nums.skip(start as int).skip(1) =~= nums.skip(start + 1));
        start += 1;
    }
    proof {
        if start < n {
            assert(nums.skip(start as int)[0] == nums[start as int]);
        }
    }
    start
}

/// Shows the points that stand at `places`, in an order, from `start` on, at most `limit` of them.
fn show_page(
    points: &Vec<Point>,
    places: &Vec<usize>,
    order: &Vec<usize>,
    start: usize,
    limit: usize,
    shown: Shown,
) -> (r: Vec<Record>)
    requires
        start <= order@.len(),
        forall|j: int| 0 <= j < places@.len() ==> #[trigger] places@[j] < points@.len(),
        forall|j: int| 0 <= j < order@.len() ==> #[trigger] order@[j] < places@.len(),
    ensures
        r@.len() == if start + limit <= order@.len() {
            limit as int
        } else {
            order@.len() - start
        },
        forall|m: int|
            0 <= m < r@.len() ==> (#[trigger] r@[m])@ == record_of(
                in_order(points_at(points_view(points@), places@), order@)[start + m],
                shown,
                JsonV::Object(Seq::empty()),
            ),
{
    let ghost listed = in_order(points_at(points_view(points@), places@), order@);
    let n: usize = order.len();
    let mut r: Vec<Record> = Vec::new();
    let mut j: usize = start;
    while j < n && j - start < limit
        invariant
            start <= j <= n,
            j - start <= limit,
            n == order@.len(),
            listed == in_order(points_at(points_view(points@), places@), order@),
            forall|m: int| 0 <= m < places@.len() ==> #[trigger] places@[m] < points@.len(),
            forall|m: int| 0 <= m < order@.len() ==> #[trigger] order@[m] < places@.len(),
            r@.len() == j - start,
            forall|m: int|
                0 <= m < r@.len() ==> (#[trigger] r@[m])@ == record_of(
                    listed[start + m],
                    shown,
                    JsonV::Object(Seq::empty()),
                ),
        decreases n - j,
    {
        let at: usize = places[order[j]];
        let members: Vec<(String, Json)> = Vec::new();
        proof {
            lemma_object(members);
            assert(fields(members@) =~= Seq::<(Seq<char>, JsonV)>::empty());
            assert(points@[at as int]@ == listed[j as int]);
        }
        r.push(record(&points[at], shown, Json::Object(members)));
        j += 1;
    }
    r
}

/// Get a page of points
pub fn scroll_points(collection: &Collection, req: &ScrollRequest) -> (r: ScrollPage)
    requires
        collection.wf(),
    ensures
        scroll_answers(
            collection@.points,
            amount(req.limit, 10),
            scroll_offset(payload_of(req.offset)),
            payload_of(req.filter),
            (Shown {
                payload: flag(req.with_payload, true),
                vector: flag(req.with_vector, false),
                multivector: false,
            }),
            records_of(r.points@),
            r.next_page_offset,
        ),
{
    let limit: usize = amount_or(req.limit, 10);
    let shown = Shown {
        payload: flag_or(req.with_payload, true),
        vector: flag_or(req.with_vector, false),
        multivector: false,
    };
    let offset = read_offset(&req.offset);
    let all = collection.get_all_points();
    let places = select_matching(&all, &req.filter);
    let ghost matching = matching_points(collection@.points, payload_of(req.filter));
    let ranks = number_points(&all, &places);
    let order = sort_order(&ranks);
    let ghost listed = in_order(matching, order@);
    let n: usize = order.len();
    let start: usize = find_start(&ranks, &order, offset);
    let ghost nums = scroll_numbers(listed);
    assert(nums =~= numbers_in_order(ranks@, order@));
    let points = show_page(&all, &places, &order, start, limit, shown);
    let next_page_offset: Option<i64> = if limit > 0 && points.len() == limit && limit < n - start {
        let last: usize = order[start + limit - 1];
        assert(nums[start + limit - 1] == ranks@[last as int]);
        Some(ranks[last])
    } else {
        None
    };
    proof {
        assert forall|i: int| 0 <= i < records_of(points@).len() implies #[trigger] records_of(points@)[i] == record_of(
            listed[start + i],
            shown,
            JsonV::Object(Seq::empty()),
        ) by {
            assert(records_of(points@)[i] == points@[i]@);
        }
        assert(shows_page(listed, limit, offset, shown, records_of(points@), next_page_offset));
    }
    ScrollPage { points, next_page_offset }
}

// ---------------------------------------------------------------------------------------------
// Single points

/// Everything of a point is shown.
pub open spec fn everything() -> Shown {
    Shown { payload: true, vector: true, multivector: true }
}

/// Get one point
pub fn get_point(collection: &Collection, id: &str) -> (r: Option<Record>)
    requires
        collection.wf(),
    ensures
        match collection@.point(id@) {
            Some(p) => r is Some && r->0@ == record_of(p, everything(), JsonV::Null),
            None => r is None,
        },
{
    match collection.get(id) {
        Some(p) => Some(record(&p, Shown { payload: true, vector: true, multivector: true }, Json::Null)),
        None => None,
    }
}

/// The identifiers that lead to points, as they were given, each with its point as it is shown.
pub open spec fn looked_up(points: Seq<PointV>, ids: Seq<JsonV>, shown: Shown) -> Seq<(JsonV, RecordV)>
    decreases ids.len(),
{
    if ids.len() == 0 {
        Seq::empty()
    } else {
        let rest = looked_up(points, ids.drop_last(), shown);
        match key_of_json(ids.last()) {
            Some(key) => match point_under(points, key) {
                Some(p) => rest.push((ids.last(), record_of(p, shown, JsonV::Null))),
                None => rest,
            },
            None => rest,
        }
    }
}

pub open spec fn answers_of(v: Seq<(Json, Record)>) -> Seq<(JsonV, RecordV)> {
    Seq::new(v.len(), |i: int| (v[i].0@, v[i].1@))
}

/// Get multiple points by IDs
pub fn get_points_by_ids(
    collection: &Collection,
    ids: &Vec<Json>,
    with_payload: Option<bool>,
    with_vector: Option<bool>,
) -> (r: Vec<(Json, Record)>)
    requires
        collection.wf(),
    ensures
        answers_of(r@) == looked_up(
            collection@.points,
            items(ids@),
            (Shown { payload: flag(with_payload, true), vector: flag(with_vector, false), multivector: false }),
        ),
{
    let shown = Shown {
        payload: flag_or(with_payload, true),
        vector: flag_or(with_vector, false),
        multivector: false,
    };
    let mut r: Vec<(Json, Record)> = Vec::new();
    let ghost all = items(ids@);
    let mut i: usize = 0;
    assert(answers_of(r@) =~= looked_up(collection@.points, all.take(0), shown));
    while i < ids.len()
        invariant
            collection.wf(),
            i <= ids@.len(),
            all == items(ids@),
            answers_of(r@) == looked_up(collection@.points, all.take(i as int), shown),
        decreases ids@.len() - i,
    {
        proof {
            lemma_prefix_grows(all, i as int);
        }
        if let Some(key) = json_key(&ids[i]) {
            if let Some(p) = collection.get(key.as_str()) {
                let ghost r0 = r@;
                let id = ids[i].clone();
                let shown_point = record(&p, shown, Json::Null);
                let ghost pair = (id@, shown_point@);
                r.push((id, shown_point));
                assert(answers_of(r@) =~= answers_of(r0).push(pair));
            }
        }
        i += 1;
    }
    assert(all.take(i as int) =~= all);
    r
}

/// Count points in collection
pub fn count_points(collection: &Collection) -> (r: usize)
    ensures
        r == collection@.points.len(),
{
    collection.count()
}

// ---------------------------------------------------------------------------------------------
// Facets

/// The text that a value is counted under: a text, a number as it is written, or a truth value.
pub open spec fn facet_text(value: JsonV) -> Option<Seq<char>> {
    match value {
        JsonV::Text(s) => Some(s),
        JsonV::Number(n) => Some(n.text()),
        JsonV::Bool(b) => Some(
            if b {
                "true"@
            } else {
                "false"@
            },
        ),
        _ => None,
    }
}

/// The text that a point is counted under, if any.
pub open spec fn facet_of(point: PointV, key: Seq<char>) -> Option<Seq<char>> {
    match point.payload {
        Some(p) => match p.get(key) {
            Some(v) => facet_text(v),
            None => None,
        },
        None => None,
    }
}

/// How often each text is counted, in the order in which the texts first come up.
pub open spec fn tally(points: Seq<PointV>, key: Seq<char>) -> Seq<(Seq<char>, u64)>
    decreases points.len(),
{
    if points.len() == 0 {
        Seq::empty()
    } else {
        let rest = tally(points.drop_last(), key);
        match facet_of(points.last(), key) {
            Some(text) => put(
                rest,
                text,
                match lookup(rest, text) {
                    Some(n) => (n + 1) as u64,
                    None => 1,
                },
            ),
            None => rest,
        }
    }
}

/// How many points have a text under a key.
pub open spec fn with_facet(points: Seq<PointV>, key: Seq<char>, text: Seq<char>) -> nat
    decreases points.len(),
{
    if points.len() == 0 {
        0
    } else {
        with_facet(points.drop_last(), key, text) + if facet_of(points.last(), key) == Some(text) {
            1nat
        } else {
            0
        }
    }
}

/// A text is counted as often as points have it, and not listed if none has.
pub proof fn law_tally_counts(points: Seq<PointV>, key: Seq<char>, text: Seq<char>)
    requires
        points.len() <= u64::MAX,
    ensures
        with_facet(points, key, text) <= points.len(),
        lookup(tally(points, key), text) == if with_facet(points, key, text) > 0 {
            Some(with_facet(points, key, text) as u64)
        } else {
            None
        },
    decreases points.len(),
{
    if points.len() > 0 {
        law_tally_counts(points.drop_last(), key, text);
        let rest = tally(points.drop_last(), key);
        if let Some(t) = facet_of(points.last(), key) {
            let n: u64 = match lookup(rest, t) {
                Some(n) => (n + 1) as u64,
                None => 1,
            };
            if t == text {
                law_put_then_lookup(rest, t, n);
            } else {
                law_put_leaves_others(rest, t, n, text);
            }
        }
    }
}

/// Higher counts come first.
pub open spec fn count_ranks(counts: Seq<(Seq<char>, u64)>) -> Seq<i64> {
    Seq::new(counts.len(), |i: int| (i64::MAX - counts[i].1) as i64)
}

/// What counting comes to: the texts counted most, most first, at most `limit` of them; where
/// counts are equal the text that came up first comes first.
pub open spec fn facet_answers(points: Seq<PointV>, key: Seq<char>, limit: usize, r: Seq<(Seq<char>, u64)>) -> bool {
    exists|order: Seq<usize>| #[trigger]
        leads(count_ranks(tally(points, key)), limit as nat, order) && r == Seq::new(
            order.len(),
            |i: int| tally(points, key)[order[i] as int],
        )
}

pub open spec fn counts_of(v: Seq<(String, u64)>) -> Seq<(Seq<char>, u64)> {
    Seq::new(v.len(), |i: int| (v[i].0@, v[i].1))
}

fn facet(point: &Point, key: &str) -> (r: Option<String>)
    ensures
        facet_of(point@, key@) == match r {
            Some(t) => Some(t@),
            None => None,
        },
{
    match &point.payload {
        Some(p) => match p.get(key) {
            Some(Json::Text(s)) => Some(s.clone()),
            Some(Json::Number(n)) => Some(n.to_text()),
            Some(Json::Bool(b)) => Some(
                if *b {
                    copied("true")
                } else {
                    copied("false")
                },
            ),
            _ => None,
        },
        None => None,
    }
}

/// Every count is at least one and none is above the number of points.
pub proof fn lemma_tally_bound(points: Seq<PointV>, key: Seq<char>)
    requires
        points.len() <= u64::MAX,
    ensures
        forall|i: int| 0 <= i < tally(points, key).len() ==> 1 <= (#[trigger] tally(points, key)[i]).1 <= points.len(),
    decreases points.len(),
{
    if points.len() > 0 {
        let rest = tally(points.drop_last(), key);
        lemma_tally_bound(points.drop_last(), key);
        if let Some(text) = facet_of(points.last(), key) {
            lemma_last_at(rest, text);
            let now = tally(points, key);
            assert forall|i: int| 0 <= i < now.len() implies 1 <= (#[trigger] now[i]).1 <= points.len() by {
                if i < rest.len() {
                    assert(1 <= rest[i].1 <= points.len() - 1);
                }
                if let Some(p) = last_at(rest, text) {
                    assert(1 <= rest[p].1 <= points.len() - 1);
                }
            }
        }
    }
}

/// Facet counts - count points by unique payload values
pub fn facet_counts(collection: &Collection, key: &str, limit: Option<usize>) -> (r: Vec<(String, u64)>)
    requires
        collection.wf(),
    ensures
        facet_answers(collection@.points, key@, amount(limit, 10), counts_of(r@)),
{
    let most: usize = amount_or(limit, 10);
    let all = collection.get_all_points();
    let ghost points = collection@.points;
    let ghost f = |n: u64| n;
    let mut counts: Vec<(String, u64)> = Vec::new();
    let n: usize = all.len();
    let mut i: usize = 0;
    assert(viewed(counts@, f) =~= tally(points.take(0), key@));
    while i < n
        invariant
            i <= n,
            n == all@.len(),
            points == points_view(all@),
            f == |n: u64| n,
            viewed(counts@, f) == tally(points.take(i as int), key@),
        decreases n - i,
    {
        proof {
            lemma_prefix_grows(points, i as int);
            lemma_tally_bound(points.take(i as int), key@);
        }
        if let Some(text) = facet(&all[i], key) {
            let ghost rest = tally(points.take(i as int), key@);
            let before: Option<u64> = match value_named::<u64, u64>(&counts, text.as_str(), Ghost(f)) {
                Some(c) => Some(*c),
                None => None,
            };
            proof {
                lemma_last_at(rest, text@);
                if let Some(p) = last_at(rest, text@) {
                    assert(rest[p].1 <= i);
                }
            }
            let count: u64 = match before {
                Some(c) => c + 1,
                None => 1,
            };
            set_named::<u64, u64>(&mut counts, text, count, Ghost(f));
        }
        i += 1;
    }
    assert(points.take(i as int) =~= points);
    let ghost totals = tally(points, key@);
    let mut ranks: Vec<i64> = Vec::new();
    let mut j: usize = 0;
    while j < counts.len()
        invariant
            j <= counts@.len(),
            f == |n: u64| n,
            totals == viewed(counts@, f),
            ranks@.len() == j,
            forall|m: int| 0 <= m < j ==> #[trigger] ranks@[m] == i64::MAX - totals[m].1,
        decreases counts@.len() - j,
    {
        let c: u64 = counts[j].1;
        assert(totals[j as int].1 == c);
        let rank: i64 = if c <= i64::MAX as u64 {
            i64::MAX - c as i64
        } else {
            -((c - 0x8000_0000_0000_0000u64) as i64) - 1
        };
        ranks.push(rank);
        j += 1;
    }
    assert(ranks@ =~= count_ranks(totals));
    let mut order = sort_order(&ranks);
    proof {
        lemma_take_leads(ranks@, order@, most as nat);
    }
    if order.len() > most {
        order.truncate(most);
    }
    assert(order@ =~= order@.take(order@.len() as int));
    let mut r: Vec<(String, u64)> = Vec::new();
    let mut m: usize = 0;
    while m < order.len()
        invariant
            m <= order@.len(),
            r@.len() == m,
            f == |n: u64| n,
            totals == viewed(counts@, f),
            forall|q: int| 0 <= q < order@.len() ==> 0 <= #[trigger] order@[q] < counts@.len(),
            forall|q: int|
                0 <= q < m ==> (#[trigger] r@[q]).0@ == totals[order@[q] as int].0 && r@[q].1 == totals[order@[q] as int].1,
        decreases order@.len() - m,
    {
        r.push((counts[order[m]].0.clone(), counts[order[m]].1));
        m += 1;
    }
    assert(counts_of(r@) =~= Seq::new(order@.len(), |q: int| totals[order@[q] as int]));
    r
}

} // verus!
