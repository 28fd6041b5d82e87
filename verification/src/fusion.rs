//! Queries that fuse the results of several others by their ranks.

use vstd::prelude::*;
use crate::api::{show_hits, shown_hits, ApiError, ApiErrorV, Hit, RecordV, Shown};
use crate::collection::{Collection, CollectionV};
use crate::filter::{pass_json, read_filter, PayloadFilter};
use crate::hnsw::scored_of;
use crate::ieee::Real;
use crate::json::{Json, JsonV};
use crate::kernels::{gives_rank_share, rank_share, Kernels};
use crate::lists::lemma_prefix_grows;
use crate::order::{leads, ranked};
use crate::point::{payload_of, Point, PointV};
use crate::rest_read::{amount, amount_or, flag, flag_or};
use crate::rest_search::{
    execute_simple_query, found_answer, hits_answer, identifies_point, name_of, parse_and_search,
    query_answers, simple_query_answers,
};
use crate::scoring::{best_ranks, law_best_first, pass_of, points_at, take_best, takes_best};
use crate::store::points_view;
use crate::text::same_text;

verus! {

/// Prefetch query for hybrid search
pub struct PrefetchQuery {
    /// Query vector or sparse vector
    pub query: Json,
    pub using: Option<String>,
    pub limit: Option<usize>,
    pub filter: Option<Json>,
}

/// Query request
pub struct QueryRequest {
    /// Query vector - can be single, multi, or a fusion object {"fusion": "rrf"}
    pub query: Json,
    pub limit: Option<usize>,
    pub with_payload: Option<bool>,
    pub with_vector: Option<bool>,
    pub filter: Option<Json>,
    /// Prefetch queries for hybrid search
    pub prefetch: Option<Vec<PrefetchQuery>>,
    /// Which named vector to use
    pub using: Option<String>,
}

pub open spec fn using_of(name: Option<String>) -> Option<Seq<char>> {
    match name {
        Some(s) => Some(s@),
        None => None,
    }
}

fn using_ref<'a>(name: &'a Option<String>) -> (r: Option<&'a str>)
    ensures
        name_of(r) == using_of(*name),
{
    match name {
        Some(s) => Some(s.as_str()),
        None => None,
    }
}

// ---------------------------------------------------------------------------------------------
// Fusing by rank

/// A point that was found, and its place among what was found with it.
pub open spec fn placed(found: Seq<(PointV, Real)>) -> Seq<(PointV, usize)> {
    Seq::new(found.len(), |i: int| (found[i].0, i as usize))
}

/// The points of several results, one result after the other, each with its place.
pub open spec fn all_placed(results: Seq<Seq<(PointV, Real)>>) -> Seq<(PointV, usize)>
    decreases results.len(),
{
    if results.len() == 0 {
        Seq::empty()
    } else {
        all_placed(results.drop_last()) + placed(results.last())
    }
}

/// Where a key stands among fused points.
pub open spec fn fused_at(fused: Seq<(PointV, Real)>, key: Seq<char>) -> Option<int>
    decreases fused.len(),
{
    if fused.len() == 0 {
        None
    } else if fused.last().0.key() == key {
        Some(fused.len() - 1)
    } else {
        fused_at(fused.drop_last(), key)
    }
}

/// What one more place of a point adds: its share goes to what the point has, or the point comes
/// in behind the others with it.
pub open spec fn fuses<K: Kernels>(
    k: &K,
    before: Seq<(PointV, Real)>,
    point: PointV,
    rank: usize,
    after: Seq<(PointV, Real)>,
) -> bool {
    exists|share: Real| #[trigger]
        gives_rank_share(k, rank, share) && match fused_at(before, point.key()) {
            Some(i) => after.len() == before.len() && call_ensures(
                K::plus,
                (k, before[i].1, share),
                after[i].1,
            ) && after == before.update(i, (before[i].0, after[i].1)),
            None => after == before.push((point, share)),
        }
}

/// The step from the `i`-th to the next state adds the `i`-th place.
pub open spec fn fuses_next<K: Kernels>(
    k: &K,
    states: Seq<Seq<(PointV, Real)>>,
    places: Seq<(PointV, usize)>,
    i: int,
) -> bool {
    fuses(k, states[i], places[i].0, places[i].1, states[i + 1])
}

pub open spec fn fuses_through<K: Kernels>(
    k: &K,
    states: Seq<Seq<(PointV, Real)>>,
    places: Seq<(PointV, usize)>,
) -> bool {
    &&& states.len() == places.len() + 1
    &&& states[0].len() == 0
    &&& forall|i: int| 0 <= i < places.len() ==> #[trigger] fuses_next(k, states, places, i)
}

/// What adding up the shares of all places comes to.
pub open spec fn fuses_all<K: Kernels>(k: &K, places: Seq<(PointV, usize)>, fused: Seq<(PointV, Real)>) -> bool {
    exists|states: Seq<Seq<(PointV, Real)>>| #[trigger] fuses_through(k, states, places) && states.last() == fused
}

/// The points of a list with scores.
pub open spec fn points_in_pairs(s: Seq<(PointV, Real)>) -> Seq<PointV> {
    Seq::new(s.len(), |i: int| s[i].0)
}

/// The scores of a list with scores.
pub open spec fn scores_in_pairs(s: Seq<(PointV, Real)>) -> Seq<Real> {
    Seq::new(s.len(), |i: int| s[i].1)
}

/// What fusing several results comes to: the points with the highest sums of shares.
pub open spec fn fusion_gives<K: Kernels>(
    k: &K,
    results: Seq<Seq<(PointV, Real)>>,
    limit: usize,
    r: Seq<(PointV, Real)>,
) -> bool {
    exists|fused: Seq<(PointV, Real)>| #[trigger]
        fuses_all(k, all_placed(results), fused) && takes_best(
            points_in_pairs(fused),
            scores_in_pairs(fused),
            limit as nat,
            r,
        )
}

/// The results in a list.
pub open spec fn results_of(v: Seq<Vec<(Point, Real)>>) -> Seq<Seq<(PointV, Real)>> {
    Seq::new(v.len(), |i: int| scored_of(v[i]@))
}

/// Points and scores in two lists.
pub open spec fn paired(points: Seq<Point>, scores: Seq<Real>) -> Seq<(PointV, Real)> {
    Seq::new(points.len(), |i: int| (points[i]@, scores[i]))
}

/// Finds a point among fused ones.
fn find_fused(points: &Vec<Point>, Ghost(scores): Ghost<Seq<Real>>, key: &str) -> (r: Option<usize>)
    requires
        scores.len() == points@.len(),
    ensures
        fused_at(paired(points@, scores), key@) == match r {
            Some(i) => Some(i as int),
            None => None,
        },
        r matches Some(i) ==> i < points@.len(),
{
    let ghost all = paired(points@, scores);
    let mut i: usize = points.len();
    assert(all.take(i as int) =~= all);
    while i > 0
        invariant
            i <= points@.len(),
            all == paired(points@, scores),
            scores.len() == points@.len(),
            fused_at(all, key@) == fused_at(all.take(i as int), key@),
        decreases i,
    {
        proof {
            lemma_prefix_grows(all, i - 1);
            assert(all[i - 1].0 == points@[i - 1]@);
        }
        i -= 1;
        let this = points[i].id.key();
        if same_text(this.as_str(), key) {
            return Some(i);
        }
    }
    None
}

/// Adds up the shares of all places.
fn fuse_all<K: Kernels>(k: &K, results: &Vec<Vec<(Point, Real)>>) -> (r: (Vec<Point>, Vec<Real>))
    ensures
        r.0@.len() == r.1@.len(),
        fuses_all(k, all_placed(results_of(results@)), paired(r.0@, r.1@)),
{
    let mut points: Vec<Point> = Vec::new();
    let mut scores: Vec<Real> = Vec::new();
    let ghost all = results_of(results@);
    let ghost mut states: Seq<Seq<(PointV, Real)>> = seq![Seq::empty()];
    let mut i: usize = 0;
    proof {
        assert(all.take(0) =~= Seq::<Seq<(PointV, Real)>>::empty());
        assert(paired(points@, scores@) =~= Seq::<(PointV, Real)>::empty());
    }
    while i < results.len()
        invariant
            i <= results@.len(),
            all == results_of(results@),
            points@.len() == scores@.len(),
            fuses_through(k, states, all_placed(all.take(i as int))),
            states.last() == paired(points@, scores@),
        decreases results@.len() - i,
    {
        proof {
            lemma_prefix_grows(all, i as int);
        }
        let list = &results[i];
        let ghost before = all_placed(all.take(i as int));
        let ghost here = placed(scored_of(list@));
        let mut rank: usize = 0;
        assert(before + here.take(0) =~= before);
        while rank < list.len()
            invariant
                rank <= list@.len(),
                here == placed(scored_of(list@)),
                points@.len() == scores@.len(),
                fuses_through(k, states, before + here.take(rank as int)),
                states.last() == paired(points@, scores@),
            decreases list@.len() - rank,
        {
            let ghost places0 = before + here.take(rank as int);
            let ghost places = before + here.take(rank + 1);
            let ghost states0 = states;
            let ghost fused0 = paired(points@, scores@);
            let point = &list[rank].0;
            proof {
                assert(places =~= places0.push(here[rank as int]));
                assert(here[rank as int] == (point@, rank));
            }
            let share = rank_share(k, rank);
            let key = point.id.key();
            match find_fused(&points, Ghost(scores@), key.as_str()) {
                Some(at) => {
                    let total = k.plus(scores[at], share);
                    scores[at] = total;
                    assert(paired(points@, scores@) =~= fused0.update(at as int, (fused0[at as int].0, total)));
                },
                None => {
                    points.push(point.clone());
                    scores.push(share);
                    assert(paired(points@, scores@) =~= fused0.push((point@, share)));
                },
            }
            proof {
                let fused = paired(points@, scores@);
                assert(fuses(k, fused0, point@, rank, fused));
                states = states.push(fused);
                assert forall|j: int| 0 <= j < places.len() implies #[trigger] fuses_next(k, states, places, j) by {
                    if j < places0.len() {
                        assert(fuses_next(k, states0, places0, j));
                    }
                }
            }
            rank += 1;
        }
        assert(here.take(rank as int) =~= here);
        i += 1;
    }
    assert(all.take(i as int) =~= all);
    (points, scores)
}

/// No two of the fused points have one key.
pub open spec fn fused_distinct(fused: Seq<(PointV, Real)>) -> bool {
    forall|i: int, j: int| 0 <= i < j < fused.len() ==> (#[trigger] fused[i]).0.key() != (#[trigger] fused[j]).0.key()
}

proof fn lemma_fused_at(fused: Seq<(PointV, Real)>, key: Seq<char>)
    ensures
        match fused_at(fused, key) {
            Some(i) => 0 <= i < fused.len() && fused[i].0.key() == key,
            None => forall|j: int| 0 <= j < fused.len() ==> (#[trigger] fused[j]).0.key() != key,
        },
    decreases fused.len(),
{
    if fused.len() > 0 && fused.last().0.key() != key {
        lemma_fused_at(fused.drop_last(), key);
        if fused_at(fused, key) is None {
            assert forall|j: int| 0 <= j < fused.len() implies (#[trigger] fused[j]).0.key() != key by {
                if j < fused.len() - 1 {
                    assert(fused.drop_last()[j] == fused[j]);
                }
            }
        }
    }
}

/// After `n` places the fused points are distinct, and each was at one of these places.
proof fn lemma_fused_so_far<K: Kernels>(k: &K, states: Seq<Seq<(PointV, Real)>>, places: Seq<(PointV, usize)>, n: int)
    requires
        fuses_through(k, states, places),
        0 <= n <= places.len(),
    ensures
        fused_distinct(states[n]),
        forall|i: int| 0 <= i < states[n].len() ==> placed_before(places, n, (#[trigger] states[n][i]).0),
    decreases n,
{
    if n > 0 {
        lemma_fused_so_far(k, states, places, n - 1);
        assert(fuses_next(k, states, places, n - 1));
        let before = states[n - 1];
        let after = states[n];
        let point = places[n - 1].0;
        lemma_fused_at(before, point.key());
        assert forall|i: int, j: int| 0 <= i < j < after.len() implies (#[trigger] after[i]).0.key() != (
        #[trigger] after[j]).0.key() by {
            assert(after[i].0 == before[i].0);
            if j < before.len() {
                assert(after[j].0 == before[j].0);
            }
        }
        assert forall|i: int| 0 <= i < after.len() implies placed_before(places, n, (#[trigger] after[i]).0) by {
            if i < before.len() {
                assert(after[i].0 == before[i].0);
                assert(placed_before(places, n - 1, before[i].0));
                let j = choose|j: int| 0 <= j < n - 1 && (#[trigger] places[j]).0 == before[i].0;
                assert(places[j].0 == after[i].0);
            } else {
                assert(places[n - 1].0 == after[i].0);
            }
        }
    }
}

/// A point is at one of the first `n` places.
pub open spec fn placed_before(places: Seq<(PointV, usize)>, n: int, point: PointV) -> bool {
    exists|j: int| 0 <= j < n && (#[trigger] places[j]).0 == point
}

/// Fused results hold no point twice, none that was not in one of the results, and no more than
/// asked for; the highest sums come first.
pub proof fn law_fused_distinct<K: Kernels>(
    k: &K,
    results: Seq<Seq<(PointV, Real)>>,
    limit: usize,
    r: Seq<(PointV, Real)>,
)
    requires
        fusion_gives(k, results, limit, r),
        all_placed(results).len() <= usize::MAX,
    ensures
        r.len() <= limit,
        fused_distinct(r),
        forall|i: int|
            0 <= i < r.len() ==> placed_before(all_placed(results), all_placed(results).len() as int, (#[trigger] r[i]).0),
        forall|i: int, j: int|
            0 <= i < j < r.len() ==> (#[trigger] r[i]).1.best_rank() <= (#[trigger] r[j]).1.best_rank(),
{
    let places = all_placed(results);
    let fused = choose|fused: Seq<(PointV, Real)>| #[trigger]
        fuses_all(k, places, fused) && takes_best(
            points_in_pairs(fused),
            scores_in_pairs(fused),
            limit as nat,
            r,
        );
    let states = choose|states: Seq<Seq<(PointV, Real)>>| #[trigger]
        fuses_through(k, states, places) && states.last() == fused;
    lemma_fused_so_far(k, states, places, places.len() as int);
    law_best_first(points_in_pairs(fused), scores_in_pairs(fused), limit as nat, r);
    let scores = scores_in_pairs(fused);
    let order = choose|order: Seq<usize>| #[trigger]
        leads(best_ranks(scores), limit as nat, order) && r == Seq::new(
            order.len(),
            |j: int| (points_in_pairs(fused)[order[j] as int], scores[order[j] as int]),
        );
    assert forall|i: int, j: int| 0 <= i < j < r.len() implies (#[trigger] r[i]).0.key() != (#[trigger] r[j]).0.key() by {
        assert(r[i].0 == fused[order[i] as int].0);
        assert(r[j].0 == fused[order[j] as int].0);
        assert(ranked(best_ranks(scores), order[i] as int).precedes(ranked(best_ranks(scores), order[j] as int)));
        assert(order[i] != order[j]);
        if order[i] < order[j] {
            assert(fused[order[i] as int].0.key() != fused[order[j] as int].0.key());
        } else {
            assert(fused[order[j] as int].0.key() != fused[order[i] as int].0.key());
        }
    }
    assert forall|i: int| 0 <= i < r.len() implies placed_before(places, places.len() as int, (#[trigger] r[i]).0) by {
        assert(r[i].0 == fused[order[i] as int].0);
    }
}

/// Fuses several results by rank (RRF - Reciprocal Rank Fusion)
pub fn fuse<K: Kernels>(k: &K, results: &Vec<Vec<(Point, Real)>>, limit: usize) -> (r: Vec<(Point, Real)>)
    ensures
        fusion_gives(k, results_of(results@), limit, scored_of(r@)),
{
    let fused = fuse_all(k, results);
    let points = fused.0;
    let scores = fused.1;
    let n: usize = points.len();
    let mut places: Vec<usize> = Vec::new();
    let mut i: usize = 0;
    while i < n
        invariant
            i <= n,
            n == points@.len(),
            places@.len() == i,
            forall|j: int| 0 <= j < i ==> #[trigger] places@[j] == j,
        decreases n - i,
    {
        places.push(i);
        i += 1;
    }
    let r = take_best(&points, &places, &scores, limit);
    proof {
        let pairs = paired(points@, scores@);
        assert(points_at(points_view(points@), places@) =~= points_in_pairs(pairs));
        assert(scores@ =~= scores_in_pairs(pairs));
    }
    r
}

// ---------------------------------------------------------------------------------------------
// The fusion query

/// What the prefetch query `i` comes to.
pub open spec fn prefetches_next<K: Kernels>(
    k: &K,
    states: Seq<CollectionV>,
    prefetch: Seq<PrefetchQuery>,
    results: Seq<Seq<(PointV, Real)>>,
    i: int,
) -> bool {
    prefetch_answers(k, states[i], prefetch[i], states[i + 1], Ok(results[i]))
}

pub open spec fn prefetch_answers<K: Kernels>(
    k: &K,
    before: CollectionV,
    query: PrefetchQuery,
    after: CollectionV,
    r: Result<Seq<(PointV, Real)>, ApiErrorV>,
) -> bool {
    query_answers(
        k,
        before,
        query.query@,
        amount(query.limit, 20),
        pass_json(payload_of(query.filter)),
        using_of(query.using),
        after,
        r,
    )
}

/// `states` and `results` are what a collection goes through and what is found while prefetch
/// queries are run one after the other.
pub open spec fn prefetches_through<K: Kernels>(
    k: &K,
    states: Seq<CollectionV>,
    prefetch: Seq<PrefetchQuery>,
    results: Seq<Seq<(PointV, Real)>>,
) -> bool {
    &&& states.len() == results.len() + 1
    &&& results.len() <= prefetch.len()
    &&& forall|i: int| 0 <= i < results.len() ==> #[trigger] prefetches_next(k, states, prefetch, results, i)
}

/// What a fusion query comes to: the prefetch queries are run, one that is refused ends it, and
/// what they found is fused.
pub open spec fn fusion_answers<K: Kernels>(
    k: &K,
    before: CollectionV,
    prefetch: Seq<PrefetchQuery>,
    limit: usize,
    after: CollectionV,
    r: Result<Seq<(PointV, Real)>, ApiErrorV>,
) -> bool {
    exists|states: Seq<CollectionV>, results: Seq<Seq<(PointV, Real)>>| #[trigger]
        prefetches_through(k, states, prefetch, results) && states[0] == before && if results.len()
            == prefetch.len() {
            after == states.last() && r is Ok && fusion_gives(k, results, limit, r->Ok_0)
        } else {
            r is Err && prefetch_answers(k, states.last(), prefetch[results.len() as int], after, r)
        }
}

/// Runs one prefetch query.
fn run_prefetch<K: Kernels>(collection: &mut Collection, k: &K, query: &PrefetchQuery) -> (r: Result<
    Vec<(Point, Real)>,
    ApiError,
>)
    requires
        old(collection).wf(),
    ensures
        final(collection).wf(),
        prefetch_answers(k, old(collection)@, *query, final(collection)@, found_answer(r)),
{
    let limit: usize = amount_or(query.limit, 20);
    let filter = read_filter(&query.filter);
    match &filter {
        Some(f) => {
            assert(pass_of(Some(f)) =~= pass_json(payload_of(query.filter)));
            parse_and_search(collection, k, &query.query, limit, Some(f), using_ref(&query.using))
        },
        None => {
            assert(pass_of(None::<&PayloadFilter>) =~= pass_json(payload_of(query.filter)));
            parse_and_search(collection, k, &query.query, limit, None, using_ref(&query.using))
        },
    }
}

/// Execute a fusion query with prefetch
pub fn execute_fusion_query<K: Kernels>(
    collection: &mut Collection,
    k: &K,
    prefetch: &Option<Vec<PrefetchQuery>>,
    limit: usize,
) -> (r: Result<Vec<(Point, Real)>, ApiError>)
    requires
        old(collection).wf(),
    ensures
        final(collection).wf(),
        match *prefetch {
            Some(list) => fusion_answers(k, old(collection)@, list@, limit, final(collection)@, found_answer(r)),
            None => final(collection)@ == old(collection)@ && found_answer(r) == Err::<
                Seq<(PointV, Real)>,
                ApiErrorV,
            >(ApiErrorV::PrefetchRequired),
        },
{
    let list = match prefetch {
        Some(l) => l,
        None => {
            return Err(ApiError::PrefetchRequired);
        },
    };
    let ghost mut states: Seq<CollectionV> = seq![collection@];
    let mut results: Vec<Vec<(Point, Real)>> = Vec::new();
    let mut i: usize = 0;
    while i < list.len()
        invariant
            collection.wf(),
            i <= list@.len(),
            *prefetch == Some(*list),
            results@.len() == i,
            states.len() == i + 1,
            states[0] == old(collection)@,
            states.last() == collection@,
            forall|j: int| 0 <= j < i ==> #[trigger] prefetches_next(k, states, list@, results_of(results@), j),
        decreases list@.len() - i,
    {
        let ghost states0 = states;
        let ghost results0 = results_of(results@);
        let outcome = run_prefetch(collection, k, &list[i]);
        match outcome {
            Ok(found) => {
                let ghost fv = scored_of(found@);
                results.push(found);
                proof {
                    states = states.push(collection@);
                    let now = results_of(results@);
                    assert(now =~= results0.push(fv));
                    assert forall|j: int| 0 <= j < i + 1 implies #[trigger] prefetches_next(
                        k,
                        states,
                        list@,
                        now,
                        j,
                    ) by {
                        if j < i {
                            assert(prefetches_next(k, states0, list@, results0, j));
                        }
                    }
                }
            },
            Err(e) => {
                assert(prefetches_through(k, states, list@, results_of(results@)));
                return Err(e);
            },
        }
        i += 1;
    }
    assert(prefetches_through(k, states, list@, results_of(results@)));
    Ok(fuse(k, &results, limit))
}

/// Whether a query asks for fusion: an object with a member `fusion`.
pub open spec fn is_fusion(query: JsonV) -> bool {
    query.get("fusion"@) is Some
}

/// What a query request finds.
pub open spec fn query_request_finds<K: Kernels>(
    k: &K,
    before: CollectionV,
    req: QueryRequest,
    after: CollectionV,
    r: Result<Seq<(PointV, Real)>, ApiErrorV>,
) -> bool {
    if is_fusion(req.query@) && req.prefetch is Some {
        fusion_answers(k, before, req.prefetch->0@, amount(req.limit, 10), after, r)
    } else {
        simple_query_answers(
            k,
            before,
            req.query@,
            amount(req.limit, 10),
            pass_json(payload_of(req.filter)),
            using_of(req.using),
            after,
            r,
        )
    }
}

/// What a query request shows; the multivector goes with the vector.
pub open spec fn query_shows(req: QueryRequest) -> Shown {
    Shown {
        payload: flag(req.with_payload, true),
        vector: flag(req.with_vector, false),
        multivector: flag(req.with_vector, false),
    }
}

/// What a query request comes to.
pub open spec fn query_points_answers<K: Kernels>(
    k: &K,
    before: CollectionV,
    req: QueryRequest,
    after: CollectionV,
    r: Result<Seq<(RecordV, Real)>, ApiErrorV>,
) -> bool {
    exists|found: Result<Seq<(PointV, Real)>, ApiErrorV>| #[trigger]
        query_request_finds(k, before, req, after, found) && r == match found {
            Ok(f) => Ok(shown_hits(f, query_shows(req))),
            Err(e) => Err(e),
        }
}

/// Query points: by identifier, dense, sparse or multivector, or by fusion
pub fn query_points<K: Kernels>(collection: &mut Collection, k: &K, req: &QueryRequest) -> (r: Result<
    Vec<Hit>,
    ApiError,
>)
    requires
        old(collection).wf(),
        identifies_point(old(collection)@, req.query@) ==> amount(req.limit, 10) < usize::MAX,
    ensures
        final(collection).wf(),
        query_points_answers(k, old(collection)@, *req, final(collection)@, hits_answer(r)),
{
    let ghost before = collection@;
    let limit: usize = amount_or(req.limit, 10);
    let with_vector = flag_or(req.with_vector, false);
    let shown = Shown {
        payload: flag_or(req.with_payload, true),
        vector: with_vector,
        multivector: with_vector,
    };
    let found = if req.query.get("fusion").is_some() && req.prefetch.is_some() {
        execute_fusion_query(collection, k, &req.prefetch, limit)
    } else {
        let filter = read_filter(&req.filter);
        match &filter {
            Some(f) => {
                assert(pass_of(Some(f)) =~= pass_json(payload_of(req.filter)));
                execute_simple_query(collection, k, &req.query, limit, Some(f), using_ref(&req.using))
            },
            None => {
                assert(pass_of(None::<&PayloadFilter>) =~= pass_json(payload_of(req.filter)));
                execute_simple_query(collection, k, &req.query, limit, None, using_ref(&req.using))
            },
        }
    };
    assert(query_request_finds(k, before, *req, collection@, found_answer(found)));
    match found {
        Ok(f) => Ok(show_hits(&f, shown)),
        Err(e) => Err(e),
    }
}

} // verus!
