//! Requests that search a collection.

use vstd::prelude::*;
use crate::api::{hits_of, record, record_of, shown_hits, ApiError, ApiErrorV, Hit, RecordV, Shown};
use crate::collection::{searches, Collection, CollectionV};
use crate::filter::{pass_json, read_filter, PayloadFilter};
use crate::hnsw::scored_of;
use crate::ieee::Real;
use crate::input::{
    collect_indices, collect_numbers, indices_among, numbers, numbers_among, parse_numbers,
    parse_rows, rows_in,
};
use crate::json::{items, lemma_array, Json, JsonV};
use crate::kernels::{gives_text_search, matches_of, Kernels};
use crate::lists::{lemma_prefix_grows, lemma_turned_rest, turned};
use crate::point::{
    copy_reals, is_fault, is_multivector, payload_of, MultiVector, Point, PointV, SparseVector,
    SparseVectorV, Vector,
};
use crate::rest_read::{amount, amount_or, flag, flag_or};
use crate::scoring::{multivector_gives, pass_of, sparse_gives};
use crate::store::point_under;
use crate::text::{copied, same_text};

verus! {

// ---------------------------------------------------------------------------------------------
// Search by vector or text

/// A request for the points nearest to a vector, or that match a text best.
pub struct SearchRequest {
    pub vector: Option<Vec<Real>>,
    pub text: Option<String>,
    pub limit: Option<usize>,
    pub filter: Option<Json>,
    pub with_payload: Option<bool>,
    pub with_vector: Option<bool>,
    pub score_threshold: Option<Real>,
    pub offset: Option<usize>,
}

/// Whether a score is good enough.
pub open spec fn reaches(score: Real, threshold: Option<Real>) -> bool {
    match threshold {
        Some(t) => t.at_most(score),
        None => true,
    }
}

fn score_reaches(score: Real, threshold: Option<Real>) -> (r: bool)
    ensures
        r == reaches(score, threshold),
{
    match threshold {
        Some(t) => score.ge(t),
        None => true,
    }
}

/// What is left of a list behind its first `offset` members.
pub open spec fn behind<T>(s: Seq<T>, offset: nat) -> Seq<T> {
    if offset <= s.len() {
        s.skip(offset as int)
    } else {
        Seq::empty()
    }
}

/// What was found with a score that is good enough.
pub open spec fn good_enough(found: Seq<(PointV, Real)>, threshold: Option<Real>) -> Seq<(PointV, Real)>
    decreases found.len(),
{
    if found.len() == 0 {
        Seq::empty()
    } else if reaches(found.last().1, threshold) {
        good_enough(found.drop_last(), threshold).push(found.last())
    } else {
        good_enough(found.drop_last(), threshold)
    }
}

/// The points that text matches lead to, where the score is good enough and the point is there.
pub open spec fn matched_points(
    points: Seq<PointV>,
    matches: Seq<(Seq<char>, Real)>,
    threshold: Option<Real>,
) -> Seq<(PointV, Real)>
    decreases matches.len(),
{
    if matches.len() == 0 {
        Seq::empty()
    } else {
        let rest = matched_points(points, matches.drop_last(), threshold);
        match point_under(points, matches.last().0) {
            Some(p) => if reaches(matches.last().1, threshold) {
                rest.push((p, matches.last().1))
            } else {
                rest
            },
            None => rest,
        }
    }
}

/// What a text search of a request comes to, given what the text index found.
pub open spec fn text_hits(
    points: Seq<PointV>,
    matches: Seq<(Seq<char>, Real)>,
    offset: usize,
    threshold: Option<Real>,
    shown: Shown,
) -> Seq<(RecordV, Real)> {
    shown_hits(matched_points(points, behind(matches, offset as nat), threshold), shown)
}

/// What a vector search of a request comes to, given what the search found.
pub open spec fn vector_hits(
    found: Seq<(PointV, Real)>,
    offset: usize,
    threshold: Option<Real>,
    shown: Shown,
) -> Seq<(RecordV, Real)> {
    shown_hits(good_enough(behind(found, offset as nat), threshold), shown)
}

/// What a search request shows.
pub open spec fn shown_by(with_payload: Option<bool>, with_vector: Option<bool>) -> Shown {
    Shown { payload: flag(with_payload, true), vector: flag(with_vector, false), multivector: false }
}

pub fn read_shown(with_payload: Option<bool>, with_vector: Option<bool>) -> (r: Shown)
    ensures
        r == shown_by(with_payload, with_vector),
{
    Shown { payload: flag_or(with_payload, true), vector: flag_or(with_vector, false), multivector: false }
}

/// How many points a search request looks for.
pub open spec fn search_span(req: SearchRequest) -> int {
    amount(req.limit, 10) + amount(req.offset, 0)
}

/// Everything is let through.
pub open spec fn unfiltered() -> spec_fn(PointV) -> bool {
    |p: PointV| true
}

/// What a text search comes to.
pub open spec fn text_search_answers<K: Kernels>(
    k: &K,
    c: CollectionV,
    text: Seq<char>,
    req: SearchRequest,
    r: Seq<(RecordV, Real)>,
) -> bool {
    exists|matches: Seq<(Seq<char>, Real)>| #[trigger]
        text_found(k, c, text, search_span(req) as usize, matches) && r == text_hits(
            c.points,
            matches,
            amount(req.offset, 0),
            req.score_threshold,
            shown_by(req.with_payload, req.with_vector),
        )
}

/// What the text index finds; nothing if there is none.
pub open spec fn text_found<K: Kernels>(
    k: &K,
    c: CollectionV,
    text: Seq<char>,
    limit: usize,
    matches: Seq<(Seq<char>, Real)>,
) -> bool {
    match c.documents {
        Some(d) => gives_text_search(k, d, text, limit, matches),
        None => matches.len() == 0,
    }
}

/// What a vector search comes to.
pub open spec fn vector_search_answers<K: Kernels>(
    k: &K,
    before: CollectionV,
    query: Seq<Real>,
    req: SearchRequest,
    after: CollectionV,
    r: Seq<(RecordV, Real)>,
) -> bool {
    exists|found: Seq<(PointV, Real)>| #[trigger]
        searches(k, before, query, search_span(req) as usize, pass_json(payload_of(req.filter)), after, found) && r
            == vector_hits(
            found,
            amount(req.offset, 0),
            req.score_threshold,
            shown_by(req.with_payload, req.with_vector),
        )
}

/// The view of found points, or of a refusal.
pub open spec fn hits_answer(r: Result<Vec<Hit>, ApiError>) -> Result<Seq<(RecordV, Real)>, ApiErrorV> {
    match r {
        Ok(v) => Ok(hits_of(v@)),
        Err(e) => Err(e@),
    }
}

/// What a search request comes to: a text counts before a vector, and one of the two is needed.
pub open spec fn search_points_answers<K: Kernels>(
    k: &K,
    before: CollectionV,
    req: SearchRequest,
    after: CollectionV,
    r: Result<Seq<(RecordV, Real)>, ApiErrorV>,
) -> bool {
    match (req.text, req.vector) {
        (Some(text), _) => after == before && r is Ok && text_search_answers(k, before, text@, req, r->Ok_0),
        (None, Some(vector)) => r is Ok && vector_search_answers(k, before, vector@, req, after, r->Ok_0),
        (None, None) => after == before && r == Err::<Seq<(RecordV, Real)>, ApiErrorV>(
            ApiErrorV::VectorOrTextRequired,
        ),
    }
}

/// The points that text matches lead to, as they are shown.
pub fn show_matches(
    collection: &Collection,
    matches: &Vec<(String, Real)>,
    offset: usize,
    threshold: Option<Real>,
    shown: Shown,
) -> (r: Vec<Hit>)
    requires
        collection.wf(),
    ensures
        hits_of(r@) == text_hits(collection@.points, matches_of(matches@), offset, threshold, shown),
{
    let mut r: Vec<Hit> = Vec::new();
    let ghost all = behind(matches_of(matches@), offset as nat);
    let ghost points = collection@.points;
    let mut i: usize = if offset <= matches.len() {
        offset
    } else {
        matches.len()
    };
    let start: usize = i;
    assert(hits_of(r@) =~= shown_hits(matched_points(points, all.take(0), threshold), shown));
    while i < matches.len()
        invariant
            collection.wf(),
            points == collection@.points,
            start <= i <= matches@.len(),
            all == behind(matches_of(matches@), offset as nat),
            all.len() == matches@.len() - start,
            start == offset || start == matches@.len(),
            hits_of(r@) == shown_hits(matched_points(points, all.take(i - start), threshold), shown),
        decreases matches@.len() - i,
    {
        proof {
            lemma_prefix_grows(all, i - start);
            assert(all[i - start] == (matches@[i as int].0@, matches@[i as int].1));
        }
        let ghost m0 = matched_points(points, all.take(i - start), threshold);
        let score = matches[i].1;
        if score_reaches(score, threshold) {
            if let Some(p) = collection.get(matches[i].0.as_str()) {
                let ghost r0 = r@;
                r.push(Hit { record: record(&p, shown, Json::Null), score });
                assert(hits_of(r@) =~= hits_of(r0).push((record_of(p@, shown, JsonV::Null), score)));
                assert(shown_hits(m0.push((p@, score)), shown) =~= shown_hits(m0, shown).push(
                    (record_of(p@, shown, JsonV::Null), score),
                ));
            }
        }
        i += 1;
    }
    assert(all.take(i - start) =~= all);
    r
}

/// Found points with scores that are good enough, as they are shown.
pub fn show_good(found: &Vec<(Point, Real)>, offset: usize, threshold: Option<Real>, shown: Shown) -> (r: Vec<Hit>)
    ensures
        hits_of(r@) == vector_hits(scored_of(found@), offset, threshold, shown),
{
    let mut r: Vec<Hit> = Vec::new();
    let ghost all = behind(scored_of(found@), offset as nat);
    let mut i: usize = if offset <= found.len() {
        offset
    } else {
        found.len()
    };
    let start: usize = i;
    assert(hits_of(r@) =~= shown_hits(good_enough(all.take(0), threshold), shown));
    while i < found.len()
        invariant
            start <= i <= found@.len(),
            all == behind(scored_of(found@), offset as nat),
            all.len() == found@.len() - start,
            start == offset || start == found@.len(),
            hits_of(r@) == shown_hits(good_enough(all.take(i - start), threshold), shown),
        decreases found@.len() - i,
    {
        proof {
            lemma_prefix_grows(all, i - start);
            assert(all[i - start] == (found@[i as int].0@, found@[i as int].1));
        }
        let ghost g0 = good_enough(all.take(i - start), threshold);
        let score = found[i].1;
        if score_reaches(score, threshold) {
            let ghost r0 = r@;
            let p = &found[i].0;
            r.push(Hit { record: record(p, shown, Json::Null), score });
            assert(hits_of(r@) =~= hits_of(r0).push((record_of(p@, shown, JsonV::Null), score)));
            assert(shown_hits(g0.push((p@, score)), shown) =~= shown_hits(g0, shown).push(
                (record_of(p@, shown, JsonV::Null), score),
            ));
        }
        i += 1;
    }
    assert(all.take(i - start) =~= all);
    r
}

/// Searches with the filter of a request.
fn search_filtered<K: Kernels>(
    collection: &mut Collection,
    k: &K,
    query: &Vector,
    limit: usize,
    filter: &Option<Json>,
) -> (r: Vec<(Point, Real)>)
    requires
        old(collection).wf(),
    ensures
        final(collection).wf(),
        searches(
            k,
            old(collection)@,
            query@,
            limit,
            pass_json(payload_of(*filter)),
            final(collection)@,
            scored_of(r@),
        ),
{
    let f = read_filter(filter);
    match &f {
        Some(p) => {
            assert(pass_of(Some(p)) =~= pass_json(payload_of(*filter)));
            collection.search(k, query, limit, Some(p))
        },
        None => {
            assert(pass_of(None::<&PayloadFilter>) =~= pass_json(payload_of(*filter)));
            collection.search(k, query, limit, None::<&PayloadFilter>)
        },
    }
}

/// Search for the points nearest to a vector, or that match a text best
pub fn search_points<K: Kernels>(collection: &mut Collection, k: &K, req: &SearchRequest) -> (r: Result<
    Vec<Hit>,
    ApiError,
>)
    requires
        old(collection).wf(),
        req.text is Some || req.vector is Some ==> search_span(*req) <= usize::MAX,
    ensures
        final(collection).wf(),
        search_points_answers(k, old(collection)@, *req, final(collection)@, hits_answer(r)),
{
    let limit: usize = amount_or(req.limit, 10);
    let offset: usize = amount_or(req.offset, 0);
    let shown = read_shown(req.with_payload, req.with_vector);
    if let Some(text) = &req.text {
        let matches = collection.search_text(k, text.as_str(), limit + offset);
        let hits = show_matches(collection, &matches, offset, req.score_threshold, shown);
        assert(text_found(k, collection@, text@, search_span(*req) as usize, matches_of(matches@)));
        return Ok(hits);
    }
    if let Some(vector) = &req.vector {
        let query = Vector::new(copy_reals(vector));
        let found = search_filtered(collection, k, &query, limit + offset, &req.filter);
        let hits = show_good(&found, offset, req.score_threshold, shown);
        assert(vector_search_answers(k, old(collection)@, vector@, *req, collection@, hits_of(hits@)));
        return Ok(hits);
    }
    Err(ApiError::VectorOrTextRequired)
}

// ---------------------------------------------------------------------------------------------
// Queries

/// The view of found points, or of a refusal.
pub open spec fn found_answer(r: Result<Vec<(Point, Real)>, ApiError>) -> Result<Seq<(PointV, Real)>, ApiErrorV> {
    match r {
        Ok(v) => Ok(scored_of(v@)),
        Err(e) => Err(e@),
    }
}

/// The name of the sparse vectors that a query is for.
pub open spec fn sparse_name(using: Option<Seq<char>>) -> Seq<char> {
    match using {
        Some(name) => name,
        None => "default"@,
    }
}

/// What a query with `indices` and `values` comes to.
pub open spec fn sparse_query_answers<K: Kernels>(
    k: &K,
    c: CollectionV,
    query: JsonV,
    limit: usize,
    pass: spec_fn(PointV) -> bool,
    using: Option<Seq<char>>,
    r: Result<Seq<(PointV, Real)>, ApiErrorV>,
) -> bool {
    match (query.get_array("indices"@), query.get_array("values"@)) {
        (None, _) => r == Err::<Seq<(PointV, Real)>, ApiErrorV>(ApiErrorV::MissingIndices),
        (Some(_), None) => r == Err::<Seq<(PointV, Real)>, ApiErrorV>(ApiErrorV::MissingValues),
        (Some(i), Some(v)) => if indices_among(i).len() == 0 || numbers_among(v).len() == 0 {
            r == Ok::<Seq<(PointV, Real)>, ApiErrorV>(Seq::empty())
        } else {
            r is Ok && sparse_gives(
                k,
                c.points,
                (SparseVectorV { indices: indices_among(i), values: numbers_among(v) }),
                sparse_name(using),
                limit,
                pass,
                r->Ok_0,
            )
        },
    }
}

/// What the rows of a multivector query are refused for.
pub open spec fn row_refusal(e: ApiErrorV) -> ApiErrorV {
    match e {
        ApiErrorV::ExpectedNumber => ApiErrorV::InvalidMultivectorNumber,
        _ => ApiErrorV::InvalidMultivectorRow,
    }
}

/// What a query with a list of lists comes to.
pub open spec fn multivector_query_answers<K: Kernels>(
    k: &K,
    c: CollectionV,
    list: Seq<JsonV>,
    limit: usize,
    pass: spec_fn(PointV) -> bool,
    r: Result<Seq<(PointV, Real)>, ApiErrorV>,
) -> bool {
    match rows_in(list) {
        Err(e) => r == Err::<Seq<(PointV, Real)>, ApiErrorV>(row_refusal(e)),
        Ok(rows) => if is_multivector(rows) {
            r is Ok && multivector_gives(k, c.config.distance, c.points, rows, limit, pass, r->Ok_0)
        } else {
            match r {
                Err(ApiErrorV::InvalidMultivector(e)) => is_fault(rows, e),
                _ => false,
            }
        },
    }
}

/// What a query that is no identifier comes to: `{"indices": ..., "values": ...}` searches the
/// sparse vectors, `[[...], ...]` the multivectors and `[...]` the dense vectors.
pub open spec fn query_answers<K: Kernels>(
    k: &K,
    before: CollectionV,
    query: JsonV,
    limit: usize,
    pass: spec_fn(PointV) -> bool,
    using: Option<Seq<char>>,
    after: CollectionV,
    r: Result<Seq<(PointV, Real)>, ApiErrorV>,
) -> bool {
    if query.get("indices"@) is Some && query.get("values"@) is Some {
        after == before && sparse_query_answers(k, before, query, limit, pass, using, r)
    } else {
        match query {
            JsonV::Array(list) => if list.len() == 0 {
                after == before && r == Err::<Seq<(PointV, Real)>, ApiErrorV>(ApiErrorV::InvalidQueryFormat)
            } else {
                match list[0] {
                    JsonV::Array(_) => after == before && multivector_query_answers(
                        k,
                        before,
                        list,
                        limit,
                        pass,
                        r,
                    ),
                    JsonV::Number(_) => match numbers(list) {
                        Some(vector) => r is Ok && searches(k, before, vector, limit, pass, after, r->Ok_0),
                        None => after == before && r == Err::<Seq<(PointV, Real)>, ApiErrorV>(
                            ApiErrorV::InvalidVector,
                        ),
                    },
                    _ => after == before && r == Err::<Seq<(PointV, Real)>, ApiErrorV>(
                        ApiErrorV::InvalidQueryFormat,
                    ),
                }
            },
            _ => after == before && r == Err::<Seq<(PointV, Real)>, ApiErrorV>(ApiErrorV::InvalidQueryFormat),
        }
    }
}

/// The view of a name that may be there.
pub open spec fn name_of(name: Option<&str>) -> Option<Seq<char>> {
    match name {
        Some(s) => Some(s@),
        None => None,
    }
}

/// Searches the sparse vectors.
fn sparse_query<K: Kernels>(
    collection: &Collection,
    k: &K,
    query: &Json,
    limit: usize,
    filter: Option<&PayloadFilter>,
    using: Option<&str>,
) -> (r: Result<Vec<(Point, Real)>, ApiError>)
    requires
        collection.wf(),
    ensures
        sparse_query_answers(k, collection@, query@, limit, pass_of(filter), name_of(using), found_answer(r)),
{
    let indices = match query.get_array("indices") {
        Some(i) => collect_indices(i),
        None => {
            return Err(ApiError::MissingIndices);
        },
    };
    let values = match query.get_array("values") {
        Some(v) => collect_numbers(v),
        None => {
            return Err(ApiError::MissingValues);
        },
    };
    if indices.len() == 0 || values.len() == 0 {
        let none: Vec<(Point, Real)> = Vec::new();
        assert(scored_of(none@) =~= Seq::<(PointV, Real)>::empty());
        return Ok(none);
    }
    let name = match using {
        Some(n) => n,
        None => "default",
    };
    let sparse = SparseVector::new(indices, values);
    Ok(collection.search_sparse(k, &sparse, name, limit, filter))
}

/// Searches the multivectors.
fn multivector_query<K: Kernels>(
    collection: &Collection,
    k: &K,
    list: &Vec<Json>,
    limit: usize,
    filter: Option<&PayloadFilter>,
) -> (r: Result<Vec<(Point, Real)>, ApiError>)
    requires
        collection.wf(),
    ensures
        multivector_query_answers(k, collection@, items(list@), limit, pass_of(filter), found_answer(r)),
{
    match parse_rows(list) {
        Err(e) => match e {
            ApiError::ExpectedNumber => Err(ApiError::InvalidMultivectorNumber),
            _ => Err(ApiError::InvalidMultivectorRow),
        },
        Ok(rows) => match MultiVector::new(rows) {
            Ok(m) => Ok(collection.search_multivector(k, &m, limit, filter)),
            Err(e) => Err(ApiError::InvalidMultivector(e)),
        },
    }
}

/// Parse a query value and execute search
pub fn parse_and_search<K: Kernels>(
    collection: &mut Collection,
    k: &K,
    query: &Json,
    limit: usize,
    filter: Option<&PayloadFilter>,
    using: Option<&str>,
) -> (r: Result<Vec<(Point, Real)>, ApiError>)
    requires
        old(collection).wf(),
    ensures
        final(collection).wf(),
        query_answers(
            k,
            old(collection)@,
            query@,
            limit,
            pass_of(filter),
            name_of(using),
            final(collection)@,
            found_answer(r),
        ),
{
    if query.get("indices").is_some() && query.get("values").is_some() {
        return sparse_query(collection, k, query, limit, filter, using);
    }
    match query {
        Json::Array(list) => {
            proof {
                lemma_array(*list);
            }
            if list.len() == 0 {
                return Err(ApiError::InvalidQueryFormat);
            }
            assert(items(list@)[0] == list@[0]@);
            match &list[0] {
                Json::Array(_) => multivector_query(collection, k, list, limit, filter),
                Json::Number(_) => match parse_numbers(list) {
                    Some(vector) => Ok(collection.search(k, &Vector::new(vector), limit, filter)),
                    None => Err(ApiError::InvalidVector),
                },
                _ => Err(ApiError::InvalidQueryFormat),
            }
        },
        _ => Err(ApiError::InvalidQueryFormat),
    }
}

/// What was found, without the point under a key.
pub open spec fn without_point(found: Seq<(PointV, Real)>, key: Seq<char>) -> Seq<(PointV, Real)>
    decreases found.len(),
{
    if found.len() == 0 {
        Seq::empty()
    } else if found.last().0.key() == key {
        without_point(found.drop_last(), key)
    } else {
        without_point(found.drop_last(), key).push(found.last())
    }
}

/// The first members of a list, at most `limit` of them.
pub open spec fn first<T>(s: Seq<T>, limit: nat) -> Seq<T> {
    if limit <= s.len() {
        s.take(limit as int)
    } else {
        s
    }
}

/// What the points nearest to one that is stored are: one more than asked for is searched for,
/// since the point itself is taken out.
pub open spec fn near_point_answers<K: Kernels>(
    k: &K,
    before: CollectionV,
    key: Seq<char>,
    limit: usize,
    pass: spec_fn(PointV) -> bool,
    after: CollectionV,
    r: Result<Seq<(PointV, Real)>, ApiErrorV>,
) -> bool {
    match before.point(key) {
        None => after == before && r == Err::<Seq<(PointV, Real)>, ApiErrorV>(ApiErrorV::PointNotFound(key)),
        Some(p) => near_vector_answers(k, before, p.vector, key, limit, pass, after, r),
    }
}

pub open spec fn near_vector_answers<K: Kernels>(
    k: &K,
    before: CollectionV,
    vector: Seq<Real>,
    key: Seq<char>,
    limit: usize,
    pass: spec_fn(PointV) -> bool,
    after: CollectionV,
    r: Result<Seq<(PointV, Real)>, ApiErrorV>,
) -> bool {
    exists|found: Seq<(PointV, Real)>| #[trigger]
        searches(k, before, vector, (limit + 1) as usize, pass, after, found) && r == Ok::<
            Seq<(PointV, Real)>,
            ApiErrorV,
        >(first(without_point(found, key), limit as nat))
}

/// Whether a query identifies a stored point.
pub open spec fn identifies_point(c: CollectionV, query: JsonV) -> bool {
    match query {
        JsonV::Number(n) => (n.natural() is Some || n.integer() is Some) && c.point(n.text()) is Some,
        JsonV::Text(s) => c.point(s) is Some,
        _ => false,
    }
}

/// What a query comes to: a number or a text is the identifier of a point whose neighbours are
/// searched; anything else is a vector.
pub open spec fn simple_query_answers<K: Kernels>(
    k: &K,
    before: CollectionV,
    query: JsonV,
    limit: usize,
    pass: spec_fn(PointV) -> bool,
    using: Option<Seq<char>>,
    after: CollectionV,
    r: Result<Seq<(PointV, Real)>, ApiErrorV>,
) -> bool {
    match query {
        JsonV::Number(n) => if n.natural() is Some || n.integer() is Some {
            near_point_answers(k, before, n.text(), limit, pass, after, r)
        } else {
            after == before && r == Err::<Seq<(PointV, Real)>, ApiErrorV>(ApiErrorV::InvalidPointIdFormat)
        },
        JsonV::Text(s) => near_point_answers(k, before, s, limit, pass, after, r),
        _ => query_answers(k, before, query, limit, pass, using, after, r),
    }
}

/// Drops the point under a key, and what is above the limit.
fn drop_point(found: Vec<(Point, Real)>, key: &str, limit: usize) -> (r: Vec<(Point, Real)>)
    ensures
        scored_of(r@) == first(without_point(scored_of(found@), key@), limit as nat),
{
    let ghost given = found@;
    let ghost all = scored_of(found@);
    let mut rest = turned(found);
    let mut r: Vec<(Point, Real)> = Vec::new();
    let ghost mut done: int = 0;
    proof {
        assert(given.skip(0) =~= given);
        assert(all.take(0) =~= Seq::<(PointV, Real)>::empty());
        assert(scored_of(r@) =~= without_point(all.take(0), key@));
    }
    while rest.len() > 0
        invariant
            0 <= done <= all.len(),
            all == scored_of(given),
            rest@ == given.skip(done).reverse(),
            scored_of(r@) == without_point(all.take(done), key@),
        decreases rest@.len(),
    {
        proof {
            lemma_turned_rest(given, done);
            lemma_prefix_grows(all, done);
        }
        let ghost r0 = r@;
        if let Some(p) = rest.pop() {
            let ghost pair = (p.0@, p.1);
            assert(pair == all[done]);
            let this = p.0.id.key();
            if !same_text(this.as_str(), key) {
                r.push(p);
                assert(scored_of(r@) =~= scored_of(r0).push(pair));
            }
            proof {
                done = done + 1;
            }
        }
    }
    assert(all.take(done) =~= all);
    let ghost kept = r@;
    if r.len() > limit {
        r.truncate(limit);
        assert(scored_of(r@) =~= scored_of(kept).take(limit as int));
    }
    r
}

/// Searches the neighbours of a stored point.
fn near_point<K: Kernels>(
    collection: &mut Collection,
    k: &K,
    key: &str,
    limit: usize,
    filter: Option<&PayloadFilter>,
) -> (r: Result<Vec<(Point, Real)>, ApiError>)
    requires
        old(collection).wf(),
        old(collection)@.point(key@) is Some ==> limit < usize::MAX,
    ensures
        final(collection).wf(),
        near_point_answers(k, old(collection)@, key@, limit, pass_of(filter), final(collection)@, found_answer(r)),
{
    match collection.get(key) {
        None => Err(ApiError::PointNotFound(copied(key))),
        Some(p) => {
            let ghost before = collection@;
            let found = collection.search(k, &p.vector, limit + 1, filter);
            let ghost fv = scored_of(found@);
            let r = Ok(drop_point(found, key, limit));
            assert(near_vector_answers(
                k,
                before,
                p@.vector,
                key@,
                limit,
                pass_of(filter),
                collection@,
                found_answer(r),
            ));
            r
        },
    }
}

/// Execute a simple (non-fusion) query
pub fn execute_simple_query<K: Kernels>(
    collection: &mut Collection,
    k: &K,
    query: &Json,
    limit: usize,
    filter: Option<&PayloadFilter>,
    using: Option<&str>,
) -> (r: Result<Vec<(Point, Real)>, ApiError>)
    requires
        old(collection).wf(),
        identifies_point(old(collection)@, query@) ==> limit < usize::MAX,
    ensures
        final(collection).wf(),
        simple_query_answers(
            k,
            old(collection)@,
            query@,
            limit,
            pass_of(filter),
            name_of(using),
            final(collection)@,
            found_answer(r),
        ),
{
    match query {
        Json::Number(n) => {
            if n.as_u64().is_some() || n.as_i64().is_some() {
                let key = n.to_text();
                near_point(collection, k, key.as_str(), limit, filter)
            } else {
                Err(ApiError::InvalidPointIdFormat)
            }
        },
        Json::Text(s) => near_point(collection, k, s.as_str(), limit, filter),
        _ => parse_and_search(collection, k, query, limit, filter, using),
    }
}

} // verus!
