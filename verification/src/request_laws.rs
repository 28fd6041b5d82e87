//! What requests that search a collection answer.

use vstd::prelude::*;
use crate::api::{record_of, shown_hits, ApiErrorV, RecordV, Shown};
use crate::collection::{searches, CollectionV};
use crate::collection_laws::law_search_respects_filter;
use crate::filter::{filter_condition, pass_json};
use crate::fusion::{query_points_answers, query_request_finds, query_shows, using_of, QueryRequest};
use crate::ieee::Real;
use crate::input::{indices_among, numbers, numbers_among, rows_in};
use crate::json::JsonV;
use crate::kernels::{gives_text_search, Kernels};
use crate::point::{is_fault, is_multivector, payload_of, PointV, SparseVectorV};
use crate::rest_read::{amount, everything, flag};
use crate::rest_search::{
    behind, first, good_enough, matched_points, near_point_answers, query_answers,
    search_points_answers, search_span, shown_by, simple_query_answers, sparse_name, text_found,
    text_hits, vector_hits, without_point, SearchRequest,
};
use crate::scoring::{multivector_gives, sparse_gives};
use crate::search_laws::{
    law_multivector_search_finds_best, law_sparse_search_finds_best, lemma_filter_takes_members,
    rightly_compared, top, top_at, with_scores,
};
use crate::store::point_under;

verus! {

// ---------------------------------------------------------------------------------------------
// What is shown

/// What is shown of a point: its identifier and its version in any case; its payload, its vector
/// and its multivector where they are asked for, and nothing of them otherwise.
pub proof fn law_record_shows(point: PointV, shown: Shown, absent: JsonV)
    ensures
        record_of(point, shown, absent).id == point.id,
        record_of(point, shown, absent).version == point.version,
        shown.payload ==> record_of(point, shown, absent).payload == Some(
            if point.payload is Some {
                point.payload->0
            } else {
                absent
            },
        ),
        !shown.payload ==> record_of(point, shown, absent).payload is None,
        shown.vector ==> record_of(point, shown, absent).vector == Some(point.vector),
        !shown.vector ==> record_of(point, shown, absent).vector is None,
        shown.multivector ==> record_of(point, shown, absent).multivector == point.multivector,
        !shown.multivector ==> record_of(point, shown, absent).multivector is None,
{
}

/// Every hit is shown, with its score, in the order found; the payload is shown unless the request
/// says otherwise, the vector only if it says so.
pub proof fn law_hits_shown(found: Seq<(PointV, Real)>, shown: Shown, with_payload: Option<bool>, with_vector: Option<bool>)
    ensures
        shown_hits(found, shown).len() == found.len(),
        forall|i: int|
            0 <= i < found.len() ==> (#[trigger] shown_hits(found, shown)[i]).1 == found[i].1 && shown_hits(
                found,
                shown,
            )[i].0 == record_of(found[i].0, shown, JsonV::Null),
        shown_by(with_payload, with_vector).payload == (with_payload != Some(false)),
        shown_by(with_payload, with_vector).vector == (with_vector == Some(true)),
        !shown_by(with_payload, with_vector).multivector,
{
}

/// What a request leaves open is what its default says.
pub proof fn law_defaults(n: usize, b: bool, otherwise: usize, usually: bool, name: String)
    ensures
        using_of(Some(name)) == Some(name@),
        using_of(None) is None,
        amount(Some(n), otherwise) == n,
        amount(None, otherwise) == otherwise,
        flag(Some(b), usually) == b,
        flag(None, usually) == usually,
{
}

// ---------------------------------------------------------------------------------------------
// Search

/// What is left of a list behind its first `n` items; nothing if it has no more.
pub open spec fn rest_behind<T>(s: Seq<T>, n: usize) -> Seq<T> {
    s.skip(
        if n <= s.len() {
            n as int
        } else {
            s.len() as int
        },
    )
}

proof fn lemma_behind<T>(s: Seq<T>, n: usize)
    ensures
        behind(s, n as nat) == rest_behind(s, n),
{
    assert(behind(s, n as nat) =~= rest_behind(s, n));
}

/// A score threshold keeps what scores at least as much, and drops nothing else.
pub proof fn law_threshold_keeps_good(found: Seq<(PointV, Real)>, threshold: Option<Real>)
    ensures
        good_enough(found, threshold) == found.filter(
            |h: (PointV, Real)| threshold is None || threshold->0.at_most(h.1),
        ),
    decreases found.len(),
{
    reveal(Seq::filter);
    let keep = |h: (PointV, Real)| threshold is None || threshold->0.at_most(h.1);
    if found.len() > 0 {
        law_threshold_keeps_good(found.drop_last(), threshold);
    } else {
        assert(good_enough(found, threshold) =~= found.filter(keep));
    }
}

/// A request to search near a vector: as many points as it asks for and passes over together are
/// searched for, among those that its filter lets through; the first ones are passed over, and
/// what scores below the threshold is dropped; everything else is shown.
pub proof fn law_vector_search_request<K: Kernels>(
    k: &K,
    before: CollectionV,
    req: SearchRequest,
    after: CollectionV,
    r: Result<Seq<(RecordV, Real)>, ApiErrorV>,
)
    requires
        search_points_answers(k, before, req, after, r),
        req.text is None,
        req.vector is Some,
        amount(req.limit, 10) + amount(req.offset, 0) <= usize::MAX,
    ensures
        r is Ok,
        exists|found: Seq<(PointV, Real)>| #[trigger]
            searches(
                k,
                before,
                req.vector->0@,
                (amount(req.limit, 10) + amount(req.offset, 0)) as usize,
                pass_json(payload_of(req.filter)),
                after,
                found,
            ) && r->Ok_0 == shown_hits(
                rest_behind(found, amount(req.offset, 0)).filter(
                    |h: (PointV, Real)| req.score_threshold is None || req.score_threshold->0.at_most(h.1),
                ),
                shown_by(req.with_payload, req.with_vector),
            ),
{
    let found = choose|found: Seq<(PointV, Real)>| #[trigger]
        searches(
            k,
            before,
            req.vector->0@,
            search_span(req) as usize,
            pass_json(payload_of(req.filter)),
            after,
            found,
        ) && r->Ok_0 == vector_hits(
            found,
            amount(req.offset, 0),
            req.score_threshold,
            shown_by(req.with_payload, req.with_vector),
        );
    lemma_behind(found, amount(req.offset, 0));
    law_threshold_keeps_good(rest_behind(found, amount(req.offset, 0)), req.score_threshold);
}

/// The hits of a request to search near a vector: at most as many as it asks for; none scores
/// below the threshold; and where payloads are shown and the filter stands for a condition, every
/// payload meets it.
pub proof fn law_search_hits_fit<K: Kernels>(
    k: &K,
    before: CollectionV,
    req: SearchRequest,
    after: CollectionV,
    r: Result<Seq<(RecordV, Real)>, ApiErrorV>,
    i: int,
)
    requires
        search_points_answers(k, before, req, after, r),
        req.text is None,
        req.vector is Some,
        amount(req.limit, 10) + amount(req.offset, 0) <= usize::MAX,
        0 <= i < r->Ok_0.len(),
    ensures
        r->Ok_0.len() <= amount(req.limit, 10),
        req.score_threshold matches Some(t) ==> t.at_most(r->Ok_0[i].1),
        req.with_payload != Some(false) && req.filter is Some && filter_condition(req.filter->0@) is Some ==> (
        r->Ok_0[i].0.payload is Some && filter_condition(req.filter->0@)->0.holds(r->Ok_0[i].0.payload->0)),
{
    law_vector_search_request(k, before, req, after, r);
    let pass = pass_json(payload_of(req.filter));
    let keep = |h: (PointV, Real)| req.score_threshold is None || req.score_threshold->0.at_most(h.1);
    let found = choose|found: Seq<(PointV, Real)>| #[trigger]
        searches(
            k,
            before,
            req.vector->0@,
            (amount(req.limit, 10) + amount(req.offset, 0)) as usize,
            pass,
            after,
            found,
        ) && r->Ok_0 == shown_hits(
            rest_behind(found, amount(req.offset, 0)).filter(keep),
            shown_by(req.with_payload, req.with_vector),
        );
    law_search_respects_filter(
        k,
        before,
        req.vector->0@,
        (amount(req.limit, 10) + amount(req.offset, 0)) as usize,
        pass,
        after,
        found,
    );
    let rest = rest_behind(found, amount(req.offset, 0));
    lemma_filter_takes_members(rest, keep);
    let kept = rest.filter(keep);
    assert(rest.contains(kept[i]) && keep(kept[i]));
    let j = choose|j: int| 0 <= j < rest.len() && rest[j] == kept[i];
    assert(pass(found[if amount(req.offset, 0) <= found.len() {
        amount(req.offset, 0) + j
    } else {
        found.len() + j
    }].0));
}

/// What the text index finds leads to the points that are there and score well enough, in the
/// order found.
pub proof fn law_matches_lead_to_points(
    points: Seq<PointV>,
    matches: Seq<(Seq<char>, Real)>,
    threshold: Option<Real>,
)
    ensures
        matched_points(points, matches, threshold) == matches.filter_map(
            |m: (Seq<char>, Real)|
                if point_under(points, m.0) is Some && (threshold is None || threshold->0.at_most(m.1)) {
                    Some((point_under(points, m.0)->0, m.1))
                } else {
                    None
                },
        ),
    decreases matches.len(),
{
    reveal(Seq::filter_map);
    let f = |m: (Seq<char>, Real)|
        if point_under(points, m.0) is Some && (threshold is None || threshold->0.at_most(m.1)) {
            Some((point_under(points, m.0)->0, m.1))
        } else {
            None
        };
    if matches.len() > 0 {
        law_matches_lead_to_points(points, matches.drop_last(), threshold);
        let rest = matches.drop_last().filter_map(f);
        if let Some(x) = f(matches.last()) {
            assert(rest.push(x) =~= rest + seq![x]);
        }
    } else {
        assert(matched_points(points, matches, threshold) =~= matches.filter_map(f));
    }
}

/// A request to search for a text asks the text index for as many as it asks for and passes over
/// together, and shows the points that what is behind the first ones leads to; without a text
/// index it shows nothing. It changes nothing, and a vector beside the text does not count.
pub proof fn law_text_search_request<K: Kernels>(
    k: &K,
    before: CollectionV,
    req: SearchRequest,
    after: CollectionV,
    r: Result<Seq<(RecordV, Real)>, ApiErrorV>,
)
    requires
        search_points_answers(k, before, req, after, r),
        req.text is Some,
        amount(req.limit, 10) + amount(req.offset, 0) <= usize::MAX,
    ensures
        after == before,
        r is Ok,
        before.documents is None ==> r->Ok_0.len() == 0,
        before.documents is Some ==> exists|matches: Seq<(Seq<char>, Real)>| #[trigger]
            gives_text_search(
                k,
                before.documents->0,
                req.text->0@,
                (amount(req.limit, 10) + amount(req.offset, 0)) as usize,
                matches,
            ) && r->Ok_0 == shown_hits(
                matched_points(before.points, rest_behind(matches, amount(req.offset, 0)), req.score_threshold),
                shown_by(req.with_payload, req.with_vector),
            ),
{
    let matches = choose|matches: Seq<(Seq<char>, Real)>| #[trigger]
        text_found(k, before, req.text->0@, search_span(req) as usize, matches) && r->Ok_0
            == text_hits(
            before.points,
            matches,
            amount(req.offset, 0),
            req.score_threshold,
            shown_by(req.with_payload, req.with_vector),
        );
    lemma_behind(matches, amount(req.offset, 0));
}

/// A request to search for nothing is refused.
pub proof fn law_search_needs_query<K: Kernels>(
    k: &K,
    before: CollectionV,
    req: SearchRequest,
    after: CollectionV,
    r: Result<Seq<(RecordV, Real)>, ApiErrorV>,
)
    requires
        search_points_answers(k, before, req, after, r),
    ensures
        (r is Err) == (req.text is None && req.vector is None),
        r is Err ==> after == before && r->Err_0 == ApiErrorV::VectorOrTextRequired,
{
}

// ---------------------------------------------------------------------------------------------
// Queries

/// The point itself is left out of its neighbours, and nothing else is.
pub proof fn law_point_left_out(found: Seq<(PointV, Real)>, key: Seq<char>)
    ensures
        without_point(found, key) == found.filter(|h: (PointV, Real)| h.0.key() != key),
    decreases found.len(),
{
    reveal(Seq::filter);
    let keep = |h: (PointV, Real)| h.0.key() != key;
    if found.len() > 0 {
        law_point_left_out(found.drop_last(), key);
    } else {
        assert(without_point(found, key) =~= found.filter(keep));
    }
}

/// The first items of a list, at most `n`.
pub open spec fn at_most_first<T>(s: Seq<T>, n: usize) -> Seq<T> {
    s.take(
        if n <= s.len() {
            n as int
        } else {
            s.len() as int
        },
    )
}

pub proof fn lemma_first<T>(s: Seq<T>, n: usize)
    ensures
        first(s, n as nat) == at_most_first(s, n),
{
    assert(first(s, n as nat) =~= at_most_first(s, n));
}

/// The key that a query by identifier asks for: a text as it is, an integer as it is written.
pub open spec fn asked_key(query: JsonV) -> Option<Seq<char>> {
    match query {
        JsonV::Text(s) => Some(s),
        JsonV::Number(n) => if n.natural() is Some || n.integer() is Some {
            Some(n.text())
        } else {
            None
        },
        _ => None,
    }
}

/// A query by the identifier of a point searches near its vector for one more than asked for,
/// leaves out the point itself, and returns at most as many as asked for; a point that is not
/// there is reported.
pub proof fn law_query_by_id<K: Kernels>(
    k: &K,
    before: CollectionV,
    query: JsonV,
    limit: usize,
    pass: spec_fn(PointV) -> bool,
    using: Option<Seq<char>>,
    after: CollectionV,
    r: Result<Seq<(PointV, Real)>, ApiErrorV>,
    key: Seq<char>,
)
    requires
        simple_query_answers(k, before, query, limit, pass, using, after, r),
        asked_key(query) == Some(key),
        limit < usize::MAX,
    ensures
        before.point(key) is None ==> after == before && r == Err::<Seq<(PointV, Real)>, ApiErrorV>(
            ApiErrorV::PointNotFound(key),
        ),
        before.point(key) matches Some(p) ==> r is Ok && exists|found: Seq<(PointV, Real)>| #[trigger]
            searches(k, before, p.vector, (limit + 1) as usize, pass, after, found) && r->Ok_0 == at_most_first(
                found.filter(|h: (PointV, Real)| h.0.key() != key),
                limit,
            ),
{
    assert(near_point_answers(k, before, key, limit, pass, after, r));
    if let Some(p) = before.point(key) {
        let found = choose|found: Seq<(PointV, Real)>| #[trigger]
            searches(k, before, p.vector, (limit + 1) as usize, pass, after, found) && r == Ok::<
                Seq<(PointV, Real)>,
                ApiErrorV,
            >(first(without_point(found, key), limit as nat));
        law_point_left_out(found, key);
        lemma_first(found.filter(|h: (PointV, Real)| h.0.key() != key), limit);
    }
}

/// A query that is a list of numbers searches near the vector that they are; one with something
/// else in it is refused.
pub proof fn law_query_by_vector<K: Kernels>(
    k: &K,
    before: CollectionV,
    list: Seq<JsonV>,
    limit: usize,
    pass: spec_fn(PointV) -> bool,
    using: Option<Seq<char>>,
    after: CollectionV,
    r: Result<Seq<(PointV, Real)>, ApiErrorV>,
)
    requires
        simple_query_answers(k, before, JsonV::Array(list), limit, pass, using, after, r),
        list.len() > 0,
        list[0] is Number,
    ensures
        (r is Ok) == forall|i: int| 0 <= i < list.len() ==> (#[trigger] list[i]) is Number,
        r is Ok ==> searches(
            k,
            before,
            Seq::new(list.len(), |i: int| list[i]->Number_0.single),
            limit,
            pass,
            after,
            r->Ok_0,
        ),
        r is Err ==> after == before && r->Err_0 == ApiErrorV::InvalidVector,
{
}

/// A query that is a list of lists of numbers searches the multivectors.
pub proof fn law_query_by_multivector<K: Kernels>(
    k: &K,
    before: CollectionV,
    list: Seq<JsonV>,
    limit: usize,
    pass: spec_fn(PointV) -> bool,
    using: Option<Seq<char>>,
    after: CollectionV,
    r: Result<Seq<(PointV, Real)>, ApiErrorV>,
)
    requires
        simple_query_answers(k, before, JsonV::Array(list), limit, pass, using, after, r),
        list.len() > 0,
        list[0] is Array,
    ensures
        after == before,
        (r is Ok) == (rows_in(list) is Ok && is_multivector(rows_in(list)->Ok_0)),
        r is Ok ==> multivector_gives(
            k,
            before.config.distance,
            before.points,
            rows_in(list)->Ok_0,
            limit,
            pass,
            r->Ok_0,
        ),
{
}

/// A query with indices and values searches the sparse vectors under the name given, or under
/// `default`; without a single index or value it finds nothing.
pub proof fn law_query_by_sparse_vector<K: Kernels>(
    k: &K,
    before: CollectionV,
    query: JsonV,
    limit: usize,
    pass: spec_fn(PointV) -> bool,
    using: Option<Seq<char>>,
    after: CollectionV,
    r: Result<Seq<(PointV, Real)>, ApiErrorV>,
    indices: Seq<JsonV>,
    values: Seq<JsonV>,
)
    requires
        simple_query_answers(k, before, query, limit, pass, using, after, r),
        query.get_array("indices"@) == Some(indices),
        query.get_array("values"@) == Some(values),
    ensures
        after == before,
        r is Ok,
        indices_among(indices).len() == 0 || numbers_among(values).len() == 0 ==> r->Ok_0.len() == 0,
        indices_among(indices).len() > 0 && numbers_among(values).len() > 0 ==> sparse_gives(
            k,
            before.points,
            (SparseVectorV { indices: indices_among(indices), values: numbers_among(values) }),
            if using is Some {
                using->0
            } else {
                "default"@
            },
            limit,
            pass,
            r->Ok_0,
        ),
{
}

/// Whatever way a query takes, it returns no more points than asked for and none that is not let
/// through.
pub proof fn law_query_respects_filter<K: Kernels>(
    k: &K,
    before: CollectionV,
    query: JsonV,
    limit: usize,
    pass: spec_fn(PointV) -> bool,
    using: Option<Seq<char>>,
    after: CollectionV,
    r: Result<Seq<(PointV, Real)>, ApiErrorV>,
)
    requires
        simple_query_answers(k, before, query, limit, pass, using, after, r),
        before.points.len() <= usize::MAX,
        asked_key(query) is Some ==> limit < usize::MAX,
        r is Ok,
    ensures
        r->Ok_0.len() <= limit,
        forall|i: int| 0 <= i < r->Ok_0.len() ==> pass((#[trigger] r->Ok_0[i]).0),
{
    match query {
        JsonV::Number(_) | JsonV::Text(_) => {
            let key = asked_key(query)->0;
            law_query_by_id(k, before, query, limit, pass, using, after, r, key);
            let p = before.point(key)->0;
            let others = |h: (PointV, Real)| h.0.key() != key;
            let found = choose|found: Seq<(PointV, Real)>| #[trigger]
                searches(k, before, p.vector, (limit + 1) as usize, pass, after, found) && r->Ok_0 == at_most_first(
                    found.filter(others),
                    limit,
                );
            law_search_respects_filter(k, before, p.vector, (limit + 1) as usize, pass, after, found);
            lemma_filter_takes_members(found, others);
            assert forall|i: int| 0 <= i < r->Ok_0.len() implies pass((#[trigger] r->Ok_0[i]).0) by {
                assert(found.contains(found.filter(others)[i]));
            }
        },
        _ => {
            lemma_query_respects_filter(k, before, query, limit, pass, using, after, r);
        },
    }
}

pub proof fn lemma_query_respects_filter<K: Kernels>(
    k: &K,
    before: CollectionV,
    query: JsonV,
    limit: usize,
    pass: spec_fn(PointV) -> bool,
    using: Option<Seq<char>>,
    after: CollectionV,
    r: Result<Seq<(PointV, Real)>, ApiErrorV>,
)
    requires
        query_answers(k, before, query, limit, pass, using, after, r),
        before.points.len() <= usize::MAX,
        r is Ok,
    ensures
        r->Ok_0.len() <= limit,
        forall|i: int| 0 <= i < r->Ok_0.len() ==> pass((#[trigger] r->Ok_0[i]).0),
{
    if query.get("indices"@) is Some && query.get("values"@) is Some {
        if query.get_array("indices"@) is Some && query.get_array("values"@) is Some {
            let indices = query.get_array("indices"@)->0;
            let values = query.get_array("values"@)->0;
            if indices_among(indices).len() > 0 && numbers_among(values).len() > 0 {
                law_sparse_search_finds_best(
                    k,
                    before.points,
                    (SparseVectorV { indices: indices_among(indices), values: numbers_among(values) }),
                    sparse_name(using),
                    limit,
                    pass,
                    r->Ok_0,
                );
            }
        }
    } else if let JsonV::Array(list) = query {
        if list[0] is Array {
            let rows = rows_in(list)->Ok_0;
            let points = before.points;
            law_multivector_search_finds_best(k, before.config.distance, points, rows, limit, pass, r->Ok_0);
            let (documents, scores) = choose|documents: Seq<Seq<Seq<Real>>>, scores: Seq<Real>| #[trigger]
                rightly_compared(k, before.config.distance, rows, points.filter(pass), documents, scores) && top(
                    with_scores(points.filter(pass), scores),
                    limit as nat,
                    r->Ok_0,
                );
            let all = with_scores(points.filter(pass), scores);
            let places = choose|places: Seq<int>| #[trigger] top_at(all, limit as nat, places, r->Ok_0);
            lemma_filter_takes_members(points, pass);
            assert forall|i: int| 0 <= i < r->Ok_0.len() implies pass((#[trigger] r->Ok_0[i]).0) by {
                assert(r->Ok_0[i] == all[places[i]]);
                assert(points.contains(points.filter(pass)[places[i]]));
            }
        } else {
            let vector = numbers(list)->0;
            law_search_respects_filter(k, before, vector, limit, pass, after, r->Ok_0);
        }
    }
}

/// A query request without fusion, in terms of its parts: the query, at most as many points as it
/// asks for or ten, those that its filter lets through, the sparse vectors that it names.
pub proof fn law_query_request<K: Kernels>(
    k: &K,
    before: CollectionV,
    req: QueryRequest,
    after: CollectionV,
    r: Result<Seq<(RecordV, Real)>, ApiErrorV>,
)
    requires
        query_points_answers(k, before, req, after, r),
        req.query@.get("fusion"@) is None || req.prefetch is None,
    ensures
        exists|found: Result<Seq<(PointV, Real)>, ApiErrorV>| #[trigger]
            simple_query_answers(
                k,
                before,
                req.query@,
                amount(req.limit, 10),
                pass_json(payload_of(req.filter)),
                using_of(req.using),
                after,
                found,
            ) && (found is Ok) == (r is Ok) && (r is Err ==> r->Err_0 == found->Err_0) && (r is Ok ==> r->Ok_0
                == shown_hits(
                found->Ok_0,
                (Shown {
                    payload: req.with_payload != Some(false),
                    vector: req.with_vector == Some(true),
                    multivector: req.with_vector == Some(true),
                }),
            )),
{
    let found = choose|found: Result<Seq<(PointV, Real)>, ApiErrorV>| #[trigger]
        query_request_finds(k, before, req, after, found) && r == match found {
            Ok(f) => Ok(shown_hits(f, query_shows(req))),
            Err(e) => Err(e),
        };
    assert(query_shows(req) == Shown {
        payload: req.with_payload != Some(false),
        vector: req.with_vector == Some(true),
        multivector: req.with_vector == Some(true),
    });
}

/// No point that a query request without fusion returns is rejected by the filter of the request:
/// behind every hit there is a point with a payload that meets the condition that the filter
/// stands for, and where payloads are shown it is the payload of the hit; and there are no more
/// hits than asked for.
pub proof fn law_query_hits_meet_filter<K: Kernels>(
    k: &K,
    before: CollectionV,
    req: QueryRequest,
    after: CollectionV,
    r: Result<Seq<(RecordV, Real)>, ApiErrorV>,
    i: int,
)
    requires
        query_points_answers(k, before, req, after, r),
        req.query@.get("fusion"@) is None || req.prefetch is None,
        before.points.len() <= usize::MAX,
        asked_key(req.query@) is Some ==> amount(req.limit, 10) < usize::MAX,
        r is Ok,
        0 <= i < r->Ok_0.len(),
    ensures
        r->Ok_0.len() <= if req.limit is Some {
            req.limit->0
        } else {
            10
        },
        req.filter is Some && filter_condition(req.filter->0@) is Some ==> exists|p: PointV|
            {
                &&& p.payload is Some
                &&& filter_condition(req.filter->0@)->0.holds(p.payload->0)
                &&& r->Ok_0[i].0 == #[trigger] record_of(p, query_shows(req), JsonV::Null)
            },
        req.filter is Some && filter_condition(req.filter->0@) is Some && req.with_payload != Some(false) ==> (
        r->Ok_0[i].0.payload is Some && filter_condition(req.filter->0@)->0.holds(r->Ok_0[i].0.payload->0)),
{
    let pass = pass_json(payload_of(req.filter));
    law_query_request(k, before, req, after, r);
    let found = choose|found: Result<Seq<(PointV, Real)>, ApiErrorV>| #[trigger]
        query_request_finds(k, before, req, after, found) && r == match found {
            Ok(f) => Ok(shown_hits(f, query_shows(req))),
            Err(e) => Err(e),
        };
    law_query_respects_filter(
        k,
        before,
        req.query@,
        amount(req.limit, 10),
        pass,
        using_of(req.using),
        after,
        found,
    );
    let p = found->Ok_0[i].0;
    assert(pass(p));
    assert(r->Ok_0[i].0 == record_of(p, query_shows(req), JsonV::Null));
}

/// What is wrong with a query that is a list of lists: the first thing in it that is no list, or
/// the first list with something in it that is no number, or the rows themselves.
pub proof fn law_query_rows_refused<K: Kernels>(
    k: &K,
    before: CollectionV,
    list: Seq<JsonV>,
    limit: usize,
    pass: spec_fn(PointV) -> bool,
    using: Option<Seq<char>>,
    after: CollectionV,
    r: Result<Seq<(PointV, Real)>, ApiErrorV>,
)
    requires
        simple_query_answers(k, before, JsonV::Array(list), limit, pass, using, after, r),
        list.len() > 0,
        list[0] is Array,
        r is Err,
    ensures
        rows_in(list) matches Err(e) ==> r->Err_0 == if e == ApiErrorV::ExpectedNumber {
            ApiErrorV::InvalidMultivectorNumber
        } else {
            ApiErrorV::InvalidMultivectorRow
        },
        rows_in(list) matches Ok(rows) ==> r->Err_0 is InvalidMultivector && is_fault(
            rows,
            r->Err_0->InvalidMultivector_0,
        ),
{
}

/// A query that is neither an identifier nor a vector is refused, and nothing changes.
pub proof fn law_unknown_query_refused<K: Kernels>(
    k: &K,
    before: CollectionV,
    query: JsonV,
    limit: usize,
    pass: spec_fn(PointV) -> bool,
    using: Option<Seq<char>>,
    after: CollectionV,
    r: Result<Seq<(PointV, Real)>, ApiErrorV>,
)
    requires
        simple_query_answers(k, before, query, limit, pass, using, after, r),
        query is Null || query is Bool || (query is Object && (query.get("indices"@) is None || query.get("values"@) is None))
            || (query matches JsonV::Array(list) && (list.len() == 0 || !(list[0] is Number || list[0] is Array))),
    ensures
        after == before,
        r == Err::<Seq<(PointV, Real)>, ApiErrorV>(ApiErrorV::InvalidQueryFormat),
{
}

/// A point that is asked for by itself is shown with everything.
pub proof fn law_everything_shown()
    ensures
        everything().payload && everything().vector && everything().multivector,
{
}

} // verus!
