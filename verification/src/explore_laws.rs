//! What fusions, recommendations, discoveries and groups are made of.

use vstd::prelude::*;
use crate::api::{record_of, shown_hits, ApiErrorV, RecordV, Shown};
use crate::collection::{searches, CollectionV};
use crate::filter::pass_json;
use crate::fusion::{
    all_placed, fused_at, fused_distinct, fuses_all, fuses_next, fuses_through, fusion_answers,
    fusion_gives, placed, points_in_pairs, prefetch_answers, prefetches_next, prefetches_through,
    query_points_answers, query_request_finds, query_shows, scores_in_pairs, using_of,
    PrefetchQuery, QueryRequest,
};
use crate::ieee::Real;
use crate::json::{items, JsonV};
use crate::kernels::{gives_example_query, gives_rank_share, Kernels};
use crate::point::{payload_of, PointV};
use crate::recommend::{
    example_keys, example_rows, found_like, law_each_once, not_below, recommend_answers,
    recommended, without_points, RecommendRequest,
};
use crate::request_laws::{at_most_first, lemma_first};
use crate::rest_explore::{
    complete, discover_answers, group_at, group_key, group_with, grouped, grouping, groups_answer,
    lemma_group_at, query_groups_answers, target_vector, GroupV, GroupsRequest,
};
use crate::rest_read::amount;
use crate::rest_search::{first, query_answers, shown_by, unfiltered};
use crate::rest_write::keys_in;
use crate::scoring::takes_best;
use crate::search_laws::{law_best_are_taken, top, with_scores};
use crate::store::point_under;

verus! {

// ---------------------------------------------------------------------------------------------
// Fusion

/// The places of all results count, one result after the other, each place from zero on.
pub proof fn law_every_place_counts(results: Seq<Seq<(PointV, Real)>>)
    ensures
        all_placed(results) == Seq::new(
            results.len(),
            |i: int| Seq::new(results[i].len(), |j: int| (results[i][j].0, j as usize)),
        ).flatten_alt(),
    decreases results.len(),
{
    let lists = Seq::new(
        results.len(),
        |i: int| Seq::new(results[i].len(), |j: int| (results[i][j].0, j as usize)),
    );
    if results.len() > 0 {
        let rest = results.drop_last();
        law_every_place_counts(rest);
        assert(lists.drop_last() =~= Seq::new(
            rest.len(),
            |i: int| Seq::new(rest[i].len(), |j: int| (rest[i][j].0, j as usize)),
        ));
        assert(lists.last() =~= placed(results.last()));
    } else {
        assert(all_placed(results) =~= lists.flatten_alt());
    }
}

/// The places at which the points with a key stand.
pub open spec fn occurrences(places: Seq<(PointV, usize)>, key: Seq<char>) -> Seq<(PointV, usize)> {
    places.filter(|p: (PointV, usize)| p.0.key() == key)
}

/// A share is added to a sum.
pub open spec fn adds_share<K: Kernels>(k: &K, sum: Real, rank: usize, r: Real) -> bool {
    exists|share: Real| #[trigger] gives_rank_share(k, rank, share) && call_ensures(K::plus, (k, sum, share), r)
}

/// `sums` begins with the share of the first place, and goes on by the share of each further one.
pub open spec fn shares_added<K: Kernels>(k: &K, at: Seq<(PointV, usize)>, sums: Seq<Real>) -> bool {
    &&& at.len() > 0
    &&& sums.len() == at.len()
    &&& gives_rank_share(k, at[0].1, sums[0])
    &&& forall|i: int| 0 < i < at.len() ==> adds_share(k, sums[i - 1], at[i].1, #[trigger] sums[i])
}

/// The sum of the shares of some places.
pub open spec fn shares_add_up<K: Kernels>(k: &K, at: Seq<(PointV, usize)>, score: Real) -> bool {
    exists|sums: Seq<Real>| #[trigger] shares_added(k, at, sums) && score == sums.last()
}

/// Each of the fused points has the sum of the shares of all places at which its key stands, no
/// two have one key, and no key is missing.
pub open spec fn fused_rightly<K: Kernels>(k: &K, places: Seq<(PointV, usize)>, fused: Seq<(PointV, Real)>) -> bool {
    &&& fused_distinct(fused)
    &&& forall|i: int|
        0 <= i < fused.len() ==> shares_add_up(
            k,
            occurrences(places, (#[trigger] fused[i]).0.key()),
            fused[i].1,
        )
    &&& forall|j: int| 0 <= j < places.len() ==> has_key(fused, (#[trigger] places[j]).0.key())
}

/// One of the fused points has a key.
pub open spec fn has_key(fused: Seq<(PointV, Real)>, key: Seq<char>) -> bool {
    exists|i: int| 0 <= i < fused.len() && (#[trigger] fused[i]).0.key() == key
}

proof fn lemma_fused_at(fused: Seq<(PointV, Real)>, key: Seq<char>)
    ensures
        match fused_at(fused, key) {
            Some(i) => 0 <= i < fused.len() && fused[i].0.key() == key,
            None => !has_key(fused, key),
        },
    decreases fused.len(),
{
    if fused.len() > 0 && fused.last().0.key() != key {
        lemma_fused_at(fused.drop_last(), key);
        if fused_at(fused, key) is None && has_key(fused, key) {
            let i = choose|i: int| 0 <= i < fused.len() && (#[trigger] fused[i]).0.key() == key;
            assert(fused.drop_last()[i].0.key() == key);
        }
    }
}

proof fn lemma_occurrences_grow(places: Seq<(PointV, usize)>, n: int, key: Seq<char>)
    requires
        0 <= n < places.len(),
    ensures
        occurrences(places.take(n + 1), key) == if places[n].0.key() == key {
            occurrences(places.take(n), key).push(places[n])
        } else {
            occurrences(places.take(n), key)
        },
{
    reveal(Seq::filter);
    assert(places.take(n + 1).drop_last() =~= places.take(n));
    assert(places.take(n + 1).last() == places[n]);
}

/// No place before one has a key that is not among the fused points.
proof fn lemma_no_occurrence(places: Seq<(PointV, usize)>, n: int, key: Seq<char>)
    requires
        0 <= n <= places.len(),
        forall|j: int| 0 <= j < n ==> (#[trigger] places[j]).0.key() != key,
    ensures
        occurrences(places.take(n), key).len() == 0,
    decreases n,
{
    if n > 0 {
        lemma_no_occurrence(places, n - 1, key);
        lemma_occurrences_grow(places, n - 1, key);
        assert(places[n - 1].0.key() != key);
    } else {
        reveal(Seq::filter);
        assert(places.take(0).len() == 0);
    }
}

proof fn lemma_fused_rightly<K: Kernels>(k: &K, states: Seq<Seq<(PointV, Real)>>, places: Seq<(PointV, usize)>, n: int)
    requires
        fuses_through(k, states, places),
        0 <= n <= places.len(),
    ensures
        fused_rightly(k, places.take(n), states[n]),
    decreases n,
{
    if n > 0 {
        lemma_fused_rightly(k, states, places, n - 1);
        assert(fuses_next(k, states, places, n - 1));
        let before = states[n - 1];
        let after = states[n];
        let earlier = places.take(n - 1);
        let now = places.take(n);
        let point = places[n - 1].0;
        let rank = places[n - 1].1;
        let key = point.key();
        lemma_fused_at(before, key);
        let share = choose|share: Real| #[trigger]
            gives_rank_share(k, rank, share) && match fused_at(before, point.key()) {
                Some(i) => after.len() == before.len() && call_ensures(K::plus, (k, before[i].1, share), after[i].1)
                    && after == before.update(i, (before[i].0, after[i].1)),
                None => after == before.push((point, share)),
            };
        assert forall|i: int, j: int| 0 <= i < j < after.len() implies (#[trigger] after[i]).0.key() != (
        #[trigger] after[j]).0.key() by {
            assert(after[i].0 == before[i].0);
            if j < before.len() {
                assert(after[j].0 == before[j].0);
            } else if before[i].0.key() == key {
                assert(has_key(before, key));
            }
        }
        assert forall|i: int| 0 <= i < after.len() implies shares_add_up(
            k,
            occurrences(now, (#[trigger] after[i]).0.key()),
            after[i].1,
        ) by {
            let own = after[i].0.key();
            lemma_occurrences_grow(places, n - 1, own);
            if i < before.len() {
                assert(after[i].0 == before[i].0);
                assert(shares_add_up(k, occurrences(earlier, before[i].0.key()), before[i].1));
                let sums = choose|sums: Seq<Real>| #[trigger]
                    shares_added(k, occurrences(earlier, own), sums) && before[i].1 == sums.last();
                if own == key {
                    let at = fused_at(before, key)->0;
                    if fused_at(before, key) is None {
                        assert(has_key(before, key));
                    }
                    if at < i {
                        assert(before[at].0.key() != before[i].0.key());
                    } else if i < at {
                        assert(before[i].0.key() != before[at].0.key());
                    }
                    assert(at == i);
                    let more = sums.push(after[i].1);
                    let occ = occurrences(now, own);
                    assert(adds_share(k, before[i].1, rank, after[i].1));
                    assert forall|m: int| 0 < m < occ.len() implies adds_share(
                        k,
                        more[m - 1],
                        occ[m].1,
                        #[trigger] more[m],
                    ) by {
                        if m < sums.len() {
                            assert(adds_share(k, sums[m - 1], occurrences(earlier, own)[m].1, sums[m]));
                        }
                    }
                    assert(shares_added(k, occ, more));
                } else {
                    assert(after[i] == before[i]);
                }
            } else {
                assert(own == key);
                assert forall|j: int| 0 <= j < n - 1 implies (#[trigger] places[j]).0.key() != key by {
                    assert(earlier[j] == places[j]);
                    assert(has_key(before, earlier[j].0.key()));
                }
                lemma_no_occurrence(places, n - 1, key);
                let sums = seq![share];
                assert(shares_added(k, occurrences(now, own), sums));
            }
        }
        assert forall|j: int| 0 <= j < now.len() implies has_key(after, (#[trigger] now[j]).0.key()) by {
            if j < n - 1 {
                assert(earlier[j] == now[j]);
                assert(has_key(before, earlier[j].0.key()));
                let i = choose|i: int| 0 <= i < before.len() && (#[trigger] before[i]).0.key() == now[j].0.key();
                assert(after[i].0 == before[i].0);
            } else {
                match fused_at(before, key) {
                    Some(i) => {
                        assert(after[i].0.key() == key);
                    },
                    None => {
                        assert(after[before.len() as int].0.key() == key);
                    },
                }
            }
        }
    } else {
        assert(states[0].len() == 0);
    }
}

/// A fusion adds up, for every key that stands anywhere in the results, the shares of all places
/// at which it stands, and returns the points with the highest sums, best first, as many as there
/// are up to the limit.
pub proof fn law_fusion_adds_all_shares<K: Kernels>(
    k: &K,
    results: Seq<Seq<(PointV, Real)>>,
    limit: usize,
    r: Seq<(PointV, Real)>,
)
    requires
        fusion_gives(k, results, limit, r),
        all_placed(results).len() <= usize::MAX,
    ensures
        exists|fused: Seq<(PointV, Real)>| #[trigger]
            fused_rightly(k, all_placed(results), fused) && top(fused, limit as nat, r),
{
    let places = all_placed(results);
    let fused = choose|fused: Seq<(PointV, Real)>| #[trigger]
        fuses_all(k, places, fused) && takes_best_of(fused, limit, r);
    let states = choose|states: Seq<Seq<(PointV, Real)>>| #[trigger]
        fuses_through(k, states, places) && states.last() == fused;
    lemma_fused_rightly(k, states, places, places.len() as int);
    assert(places.take(places.len() as int) =~= places);
    lemma_fused_no_more(k, states, places, places.len() as int);
    law_best_are_taken(points_in_pairs(fused), scores_in_pairs(fused), limit as nat, r);
    assert(with_scores(points_in_pairs(fused), scores_in_pairs(fused)) =~= fused);
}

spec fn takes_best_of(fused: Seq<(PointV, Real)>, limit: usize, r: Seq<(PointV, Real)>) -> bool {
    takes_best(points_in_pairs(fused), scores_in_pairs(fused), limit as nat, r)
}

proof fn lemma_fused_no_more<K: Kernels>(k: &K, states: Seq<Seq<(PointV, Real)>>, places: Seq<(PointV, usize)>, n: int)
    requires
        fuses_through(k, states, places),
        0 <= n <= places.len(),
    ensures
        states[n].len() <= n,
    decreases n,
{
    if n > 0 {
        lemma_fused_no_more(k, states, places, n - 1);
        assert(fuses_next(k, states, places, n - 1));
    }
}

/// A fusion that is refused is refused for what one of its prefetch queries is refused for.
pub proof fn law_fusion_refused<K: Kernels>(
    k: &K,
    before: CollectionV,
    prefetch: Seq<PrefetchQuery>,
    limit: usize,
    after: CollectionV,
    r: Result<Seq<(PointV, Real)>, ApiErrorV>,
)
    requires
        fusion_answers(k, before, prefetch, limit, after, r),
        r is Err,
    ensures
        exists|i: int, mid: CollectionV|
            0 <= i < prefetch.len() && #[trigger] query_answers(
                k,
                mid,
                prefetch[i].query@,
                amount(prefetch[i].limit, 20),
                pass_json(payload_of(prefetch[i].filter)),
                using_of(prefetch[i].using),
                after,
                r,
            ),
{
    let (states, results) = choose|states: Seq<CollectionV>, results: Seq<Seq<(PointV, Real)>>| #[trigger]
        prefetches_through(k, states, prefetch, results) && states[0] == before && if results.len()
            == prefetch.len() {
            after == states.last() && r is Ok && fusion_gives(k, results, limit, r->Ok_0)
        } else {
            r is Err && prefetch_answers(k, states.last(), prefetch[results.len() as int], after, r)
        };
    let i = results.len() as int;
    assert(query_answers(
        k,
        states.last(),
        prefetch[i].query@,
        amount(prefetch[i].limit, 20),
        pass_json(payload_of(prefetch[i].filter)),
        using_of(prefetch[i].using),
        after,
        r,
    ));
}

/// A fusion that is not refused runs every prefetch query, each with its own filter, limit and name,
/// one after the other, and fuses what all of them found.
pub proof fn law_fusion_runs_all<K: Kernels>(
    k: &K,
    before: CollectionV,
    prefetch: Seq<PrefetchQuery>,
    limit: usize,
    after: CollectionV,
    r: Result<Seq<(PointV, Real)>, ApiErrorV>,
)
    requires
        fusion_answers(k, before, prefetch, limit, after, r),
        r is Ok,
    ensures
        exists|states: Seq<CollectionV>, results: Seq<Seq<(PointV, Real)>>|
            {
                &&& #[trigger] fusion_gives(k, results, limit, r->Ok_0)
                &&& results.len() == prefetch.len()
                &&& #[trigger] states.len() == prefetch.len() + 1
                &&& states[0] == before
                &&& states[prefetch.len() as int] == after
                &&& forall|i: int|
                    0 <= i < prefetch.len() ==> query_answers(
                        k,
                        states[i],
                        (#[trigger] prefetch[i]).query@,
                        amount(prefetch[i].limit, 20),
                        pass_json(payload_of(prefetch[i].filter)),
                        using_of(prefetch[i].using),
                        states[i + 1],
                        Ok(results[i]),
                    )
            },
{
    let (states, results) = choose|states: Seq<CollectionV>, results: Seq<Seq<(PointV, Real)>>| #[trigger]
        prefetches_through(k, states, prefetch, results) && states[0] == before && if results.len() == prefetch.len() {
            after == states.last() && r is Ok && fusion_gives(k, results, limit, r->Ok_0)
        } else {
            r is Err && prefetch_answers(k, states.last(), prefetch[results.len() as int], after, r)
        };
    assert forall|i: int| 0 <= i < prefetch.len() implies query_answers(
        k,
        states[i],
        (#[trigger] prefetch[i]).query@,
        amount(prefetch[i].limit, 20),
        pass_json(payload_of(prefetch[i].filter)),
        using_of(prefetch[i].using),
        states[i + 1],
        Ok(results[i]),
    ) by {
        assert(prefetches_next(k, states, prefetch, results, i));
    }
    assert(states.len() == prefetch.len() + 1);
}

/// A query request with fusion and prefetch queries is a fusion of what these find, at most as
/// many as it asks for or ten.
pub proof fn law_fusion_request<K: Kernels>(
    k: &K,
    before: CollectionV,
    req: QueryRequest,
    after: CollectionV,
    r: Result<Seq<(RecordV, Real)>, ApiErrorV>,
)
    requires
        query_points_answers(k, before, req, after, r),
        req.query@.get("fusion"@) is Some,
        req.prefetch is Some,
    ensures
        exists|found: Result<Seq<(PointV, Real)>, ApiErrorV>| #[trigger]
            fusion_answers(k, before, req.prefetch->0@, amount(req.limit, 10), after, found) && (found is Ok) == (r is Ok)
                && (r is Err ==> r->Err_0 == found->Err_0) && (r is Ok ==> r->Ok_0 == shown_hits(
                found->Ok_0,
                (Shown {
                    payload: req.with_payload != Some(false),
                    vector: req.with_vector == Some(true),
                    multivector: req.with_vector == Some(true),
                }),
            )),
{
    let found = choose|found: Result<Seq<(PointV, Real)>, ApiErrorV>| #[trigger]
        query_request_finds(k, before, req, after, found) && r == match found {
            Ok(f) => Ok(shown_hits(f, query_shows(req))),
            Err(e) => Err(e),
        };
    assert(query_shows(req) == Shown {
        payload: req.with_payload != Some(false),
        vector: req.with_vector == Some(true),
        multivector: req.with_vector == Some(true),
    });
}

// ---------------------------------------------------------------------------------------------
// Recommendations

/// Where no filter is asked for, every point is let through.
pub proof fn law_unfiltered(point: PointV)
    ensures
        unfiltered()(point),
{
}

/// The examples that a search starts from are all those that are stored, in the order given.
pub proof fn law_stored_examples(points: Seq<PointV>, keys: Seq<Seq<char>>)
    ensures
        example_rows(points, keys) == keys.filter_map(
            |key: Seq<char>|
                if point_under(points, key) is Some {
                    Some(point_under(points, key)->0.vector)
                } else {
                    None
                },
        ),
    decreases keys.len(),
{
    reveal(Seq::filter_map);
    let f = |key: Seq<char>|
        if point_under(points, key) is Some {
            Some(point_under(points, key)->0.vector)
        } else {
            None
        };
    if keys.len() > 0 {
        law_stored_examples(points, keys.drop_last());
        let rest = keys.drop_last().filter_map(f);
        if let Some(v) = f(keys.last()) {
            assert(rest.push(v) =~= rest + seq![v]);
        }
    } else {
        assert(example_rows(points, keys) =~= keys.filter_map(f));
    }
}

/// The examples are left out of what is recommended, and nothing else is.
pub proof fn law_examples_left_out(found: Seq<(PointV, Real)>, liked: Seq<Seq<char>>, disliked: Seq<Seq<char>>)
    ensures
        without_points(found, example_keys(liked, disliked)) == found.filter(
            |h: (PointV, Real)| !liked.contains(h.0.key()) && !disliked.contains(h.0.key()),
        ),
    decreases found.len(),
{
    reveal(Seq::filter);
    let keep = |h: (PointV, Real)| !liked.contains(h.0.key()) && !disliked.contains(h.0.key());
    let keys = example_keys(liked, disliked);
    law_each_once(liked + disliked);
    if found.len() > 0 {
        law_examples_left_out(found.drop_last(), liked, disliked);
        let key = found.last().0.key();
        assert(keys.contains(key) == (liked.contains(key) || disliked.contains(key))) by {
            if liked.contains(key) {
                let m = choose|m: int| 0 <= m < liked.len() && liked[m] == key;
                assert((liked + disliked)[m] == key);
            }
            if disliked.contains(key) {
                let m = choose|m: int| 0 <= m < disliked.len() && disliked[m] == key;
                assert((liked + disliked)[liked.len() + m] == key);
            }
            if (liked + disliked).contains(key) {
                let m = choose|m: int| 0 <= m < (liked + disliked).len() && (liked + disliked)[m] == key;
                if m < liked.len() {
                    assert(liked[m] == key);
                } else {
                    assert(disliked[m - liked.len()] == key);
                }
            }
        }
    } else {
        assert(without_points(found, keys) =~= found.filter(keep));
    }
}

/// A search from examples: near the query that all of them make, without a filter, for as many
/// more as there are different examples, since those are left out.
pub proof fn law_search_from_examples<K: Kernels>(
    k: &K,
    before: CollectionV,
    liked: Seq<Seq<char>>,
    disliked: Seq<Seq<char>>,
    limit: usize,
    after: CollectionV,
    r: Seq<(PointV, Real)>,
)
    requires
        found_like(k, before, liked, disliked, limit, after, r),
    ensures
        exists|query: Seq<Real>, found: Seq<(PointV, Real)>|
            {
                &&& #[trigger] gives_example_query(
                    k,
                    example_rows(before.points, liked),
                    example_rows(before.points, disliked),
                    query,
                )
                &&& #[trigger] searches(
                    k,
                    before,
                    query,
                    (limit + (liked + disliked).to_set().len()) as usize,
                    unfiltered(),
                    after,
                    found,
                )
                &&& r == found.filter(
                    |h: (PointV, Real)| !liked.contains(h.0.key()) && !disliked.contains(h.0.key()),
                )
            },
{
    let (query, found) = choose|query: Seq<Real>, found: Seq<(PointV, Real)>| #[trigger]
        gives_example_query(k, example_rows(before.points, liked), example_rows(before.points, disliked), query)
            && #[trigger] searches(
            k,
            before,
            query,
            (limit + example_keys(liked, disliked).len()) as usize,
            unfiltered(),
            after,
            found,
        ) && r == without_points(found, example_keys(liked, disliked));
    law_examples_left_out(found, liked, disliked);
    let keys = example_keys(liked, disliked);
    law_each_once(liked + disliked);
    keys.unique_seq_to_set();
    assert(keys.to_set() =~= (liked + disliked).to_set()) by {
        assert forall|key: Seq<char>| keys.to_set().contains(key) == (liked + disliked).to_set().contains(key) by {
            assert(keys.contains(key) == (liked + disliked).contains(key));
        }
    }
}

/// What scores below the threshold is not recommended, and nothing else is dropped for its score.
pub proof fn law_low_scores_dropped(found: Seq<(PointV, Real)>, threshold: Option<Real>)
    ensures
        not_below(found, threshold) == found.filter(
            |h: (PointV, Real)| threshold is None || !h.1.less(threshold->0),
        ),
    decreases found.len(),
{
    reveal(Seq::filter);
    let keep = |h: (PointV, Real)| threshold is None || !h.1.less(threshold->0);
    if found.len() > 0 {
        law_low_scores_dropped(found.drop_last(), threshold);
    } else {
        assert(not_below(found, threshold) =~= found.filter(keep));
    }
}

/// How many points are recommended at most: as many as asked for, or ten, but one at least.
pub open spec fn recommended_at_most(limit: Option<usize>) -> usize {
    if limit is None {
        10
    } else if limit->0 == 0 {
        1
    } else {
        limit->0
    }
}

/// A request for recommendations shows the first of what a search from its examples finds, at most
/// as many as it asks for or ten, one if it asks for none, and without a stored example that is liked
/// it is refused.
pub proof fn law_recommend_request<K: Kernels>(
    k: &K,
    before: CollectionV,
    req: RecommendRequest,
    after: CollectionV,
    r: Result<Seq<(RecordV, Real)>, ApiErrorV>,
)
    requires
        recommend_answers(k, before, req, after, r),
    ensures
        (r is Err) == (forall|i: int|
            0 <= i < keys_in(items(req.positive@)).len() ==> point_under(
                before.points,
                #[trigger] keys_in(items(req.positive@))[i],
            ) is None),
        r is Err ==> after == before && r->Err_0 == ApiErrorV::PositiveRequired,
        r is Ok ==> exists|found: Seq<(PointV, Real)>| #[trigger]
            found_like(
                k,
                before,
                keys_in(items(req.positive@)),
                keys_in(items(req.negative@)),
                amount(req.limit, 10),
                after,
                found,
            ) && r->Ok_0 == shown_hits(
                at_most_first(
                    found.filter(
                        |h: (PointV, Real)| req.score_threshold is None || !h.1.less(req.score_threshold->0),
                    ),
                    recommended_at_most(req.limit),
                ),
                shown_by(req.with_payload, req.with_vector),
            ),
{
    let liked = keys_in(items(req.positive@));
    lemma_some_example(before.points, liked);
    if r is Ok {
        let found = choose|found: Seq<(PointV, Real)>| #[trigger]
            found_like(
                k,
                before,
                liked,
                keys_in(items(req.negative@)),
                amount(req.limit, 10),
                after,
                found,
            ) && r->Ok_0 == recommended(found, req);
        law_low_scores_dropped(found, req.score_threshold);
        lemma_first(not_below(found, req.score_threshold), recommended_at_most(req.limit));
    }
}

pub proof fn lemma_some_example(points: Seq<PointV>, keys: Seq<Seq<char>>)
    ensures
        (example_rows(points, keys).len() == 0) == forall|i: int|
            0 <= i < keys.len() ==> point_under(points, #[trigger] keys[i]) is None,
    decreases keys.len(),
{
    if keys.len() > 0 {
        let rest = keys.drop_last();
        lemma_some_example(points, rest);
        let none = forall|i: int| 0 <= i < keys.len() ==> point_under(points, #[trigger] keys[i]) is None;
        if none {
            assert forall|i: int| 0 <= i < rest.len() implies point_under(points, #[trigger] rest[i]) is None by {
                assert(rest[i] == keys[i]);
            }
            assert(point_under(points, keys[keys.len() - 1]) is None);
        }
        if example_rows(points, keys).len() == 0 {
            assert forall|i: int| 0 <= i < keys.len() implies point_under(points, #[trigger] keys[i]) is None by {
                if i < rest.len() {
                    assert(rest[i] == keys[i]);
                }
            }
        }
    }
}

// ---------------------------------------------------------------------------------------------
// Discovery

/// A discovery request searches near its target, a vector or the vector of a stored point, without
/// a filter, and shows what it finds; without such a target it is refused.
pub proof fn law_discover_request<K: Kernels>(
    k: &K,
    before: CollectionV,
    target: Option<JsonV>,
    limit: usize,
    with_payload: bool,
    after: CollectionV,
    r: Result<Seq<(RecordV, Real)>, ApiErrorV>,
)
    requires
        discover_answers(k, before, target, limit, with_payload, after, r),
    ensures
        (r is Ok) == match target {
            Some(JsonV::Array(list)) => forall|i: int| 0 <= i < list.len() ==> (#[trigger] list[i]) is Number,
            Some(JsonV::Text(s)) => point_under(before.points, s) is Some,
            Some(JsonV::Number(n)) => point_under(before.points, n.text()) is Some,
            _ => false,
        },
        r is Err ==> after == before && r->Err_0 == ApiErrorV::TargetRequired,
        r is Ok ==> exists|query: Seq<Real>, found: Seq<(PointV, Real)>|
            {
                &&& match target->0 {
                    JsonV::Array(list) => query.len() == list.len() && forall|i: int|
                        0 <= i < list.len() ==> #[trigger] query[i] == list[i]->Number_0.single,
                    JsonV::Text(s) => query == point_under(before.points, s)->0.vector,
                    JsonV::Number(n) => query == point_under(before.points, n.text())->0.vector,
                    _ => false,
                }
                &&& #[trigger] searches(k, before, query, limit, unfiltered(), after, found)
                &&& r->Ok_0 == shown_hits(
                    found,
                    (Shown { payload: with_payload, vector: false, multivector: false }),
                )
            },
{
    if r is Ok {
        let query = target_vector(before.points, target)->0;
        let shown = Shown { payload: with_payload, vector: false, multivector: false };
        let found = choose|found: Seq<(PointV, Real)>| #[trigger]
            searches(k, before, query, limit, unfiltered(), after, found) && r->Ok_0 == shown_hits(found, shown);
        assert(searches(k, before, query, limit, unfiltered(), after, found));
    }
}

// ---------------------------------------------------------------------------------------------
// Groups

/// The group of a point is named after what its payload has at the field, a text or a number as it
/// is written; a point without such a value is in the group `unknown`.
pub proof fn law_group_names(point: PointV, field: Seq<char>)
    ensures
        group_key(point, field) == match (point.payload, if point.payload is Some {
            point.payload->0.get(field)
        } else {
            None
        }) {
            (Some(_), Some(JsonV::Text(s))) => s,
            (Some(_), Some(JsonV::Number(n))) => n.text(),
            _ => "unknown"@,
        },
{
}

/// What was found of a group.
pub open spec fn members(found: Seq<(PointV, Real)>, field: Seq<char>, id: Seq<char>) -> Seq<(PointV, Real)> {
    found.filter(|h: (PointV, Real)| group_key(h.0, field) == id)
}

/// One of the groups has an identifier.
pub open spec fn has_group(groups: Seq<GroupV>, id: Seq<char>) -> bool {
    exists|i: int| 0 <= i < groups.len() && (#[trigger] groups[i]).id == id
}

/// Each group holds the first of its members, in the order found, as many as there is room for; and
/// everything found has a group.
pub open spec fn groups_hold(
    groups: Seq<GroupV>,
    found: Seq<(PointV, Real)>,
    field: Seq<char>,
    size: usize,
    shown: Shown,
) -> bool {
    &&& forall|i: int, j: int| 0 <= i < j < groups.len() ==> (#[trigger] groups[i]).id != (#[trigger] groups[j]).id
    &&& forall|i: int|
        0 <= i < groups.len() ==> (#[trigger] groups[i]).hits == shown_hits(
            at_most_first(members(found, field, groups[i].id), size),
            shown,
        ) && members(found, field, groups[i].id).len() > 0
    &&& forall|j: int| 0 <= j < found.len() ==> has_group(groups, group_key((#[trigger] found[j]).0, field))
}

proof fn lemma_members_grow(found: Seq<(PointV, Real)>, field: Seq<char>, id: Seq<char>)
    requires
        found.len() > 0,
    ensures
        members(found, field, id) == if group_key(found.last().0, field) == id {
            members(found.drop_last(), field, id).push(found.last())
        } else {
            members(found.drop_last(), field, id)
        },
{
    reveal(Seq::filter);
}

proof fn lemma_no_member(found: Seq<(PointV, Real)>, field: Seq<char>, id: Seq<char>)
    requires
        forall|j: int| 0 <= j < found.len() ==> group_key((#[trigger] found[j]).0, field) != id,
    ensures
        members(found, field, id).len() == 0,
    decreases found.len(),
{
    if found.len() > 0 {
        let rest = found.drop_last();
        assert forall|j: int| 0 <= j < rest.len() implies group_key((#[trigger] rest[j]).0, field) != id by {
            assert(rest[j] == found[j]);
        }
        lemma_no_member(rest, field, id);
        lemma_members_grow(found, field, id);
        assert(group_key(found[found.len() - 1].0, field) != id);
    } else {
        reveal(Seq::filter);
    }
}

proof fn lemma_grouped_holds(
    groups: Seq<GroupV>,
    found: Seq<(PointV, Real)>,
    field: Seq<char>,
    size: usize,
    shown: Shown,
)
    requires
        found.len() > 0,
        groups_hold(groups, found.drop_last(), field, size, shown),
    ensures
        groups_hold(
            grouped(
                groups,
                group_key(found.last().0, field),
                (record_of(found.last().0, shown, JsonV::Null), found.last().1),
                size,
            ),
            found,
            field,
            size,
            shown,
        ),
{
    let last = found.last();
    let rest = found.drop_last();
    let id = group_key(last.0, field);
    let hit = (record_of(last.0, shown, JsonV::Null), last.1);
    let after = grouped(groups, id, hit, size);
    lemma_group_at(groups, id);
    if group_at(groups, id) is None {
        assert forall|j: int| 0 <= j < rest.len() implies group_key((#[trigger] rest[j]).0, field) != id by {
            assert(has_group(groups, group_key(rest[j].0, field)));
        }
        lemma_no_member(rest, field, id);
    }
    assert forall|i: int, j: int| 0 <= i < j < after.len() implies (#[trigger] after[i]).id != (#[trigger] after[j]).id by {
        assert(groups[i].id == after[i].id);
        if j < groups.len() {
            assert(groups[j].id == after[j].id);
        }
    }
    assert forall|i: int| 0 <= i < after.len() implies (#[trigger] after[i]).hits == shown_hits(
        at_most_first(members(found, field, after[i].id), size),
        shown,
    ) && members(found, field, after[i].id).len() > 0 by {
        let own = after[i].id;
        lemma_members_grow(found, field, own);
        let old_members = members(rest, field, own);
        if i < groups.len() {
            assert(groups[i].id == own);
            assert(groups[i].hits == shown_hits(at_most_first(old_members, size), shown));
            if own == id {
                let at = group_at(groups, id)->0;
                if at < i {
                    assert(groups[at].id != groups[i].id);
                } else if i < at {
                    assert(groups[i].id != groups[at].id);
                }
                assert(after[i] == group_with(groups[i], hit, size));
                if old_members.len() < size {
                    assert(at_most_first(old_members.push(last), size) =~= old_members.push(last));
                    assert(at_most_first(old_members, size) =~= old_members);
                    assert(shown_hits(old_members.push(last), shown) =~= shown_hits(old_members, shown).push(hit));
                } else {
                    assert(at_most_first(old_members.push(last), size) =~= at_most_first(old_members, size));
                }
            }
        } else {
            assert(own == id);
            assert(old_members =~= Seq::empty());
            assert(members(found, field, own) =~= seq![last]);
            if size > 0 {
                assert(at_most_first(seq![last], size) =~= seq![last]);
                assert(after[i].hits =~= shown_hits(seq![last], shown));
            } else {
                assert(after[i].hits =~= shown_hits(at_most_first(seq![last], size), shown));
            }
        }
    }
    assert forall|j: int| 0 <= j < found.len() implies has_group(after, group_key((#[trigger] found[j]).0, field)) by {
        if j < rest.len() {
            assert(rest[j] == found[j]);
            assert(has_group(groups, group_key(rest[j].0, field)));
            let i = choose|i: int| 0 <= i < groups.len() && (#[trigger] groups[i]).id == group_key(rest[j].0, field);
            assert(after[i].id == groups[i].id);
        } else {
            match group_at(groups, id) {
                Some(i) => {
                    assert(after[i].id == id);
                },
                None => {
                    assert(after[groups.len() as int].id == id);
                },
            }
        }
    }
}

/// Grouping puts what was found, from the front on, into the groups of its members; it stops early
/// only where there are as many groups as asked for and all are full.
pub proof fn law_groups_hold_first(found: Seq<(PointV, Real)>, field: Seq<char>, limit: usize, size: usize, shown: Shown)
    ensures
        exists|m: int|
            {
                &&& 0 <= m <= found.len()
                &&& #[trigger] groups_hold(grouping(found, field, limit, size, shown), found.take(m), field, size, shown)
                &&& m < found.len() ==> grouping(found, field, limit, size, shown).len() >= limit && forall|i: int|
                    0 <= i < grouping(found, field, limit, size, shown).len() ==> (#[trigger] grouping(
                        found,
                        field,
                        limit,
                        size,
                        shown,
                    )[i]).hits.len() >= size
            },
    decreases found.len(),
{
    let groups = grouping(found, field, limit, size, shown);
    if found.len() == 0 {
        assert(groups_hold(groups, found.take(0), field, size, shown));
    } else {
        let rest = found.drop_last();
        let before = grouping(rest, field, limit, size, shown);
        law_groups_hold_first(rest, field, limit, size, shown);
        let m = choose|m: int|
            {
                &&& 0 <= m <= rest.len()
                &&& #[trigger] groups_hold(before, rest.take(m), field, size, shown)
                &&& m < rest.len() ==> before.len() >= limit && forall|i: int|
                    0 <= i < before.len() ==> (#[trigger] before[i]).hits.len() >= size
            };
        if found.len() > 1 && complete(before, limit, size) {
            assert(rest.take(m) =~= found.take(m));
            assert(groups_hold(groups, found.take(m), field, size, shown));
        } else {
            if m < rest.len() {
                assert(complete(before, limit, size));
            }
            assert(rest.take(m) =~= rest);
            lemma_grouped_holds(before, found, field, size, shown);
            assert(found.take(found.len() as int) =~= found);
            assert(groups_hold(groups, found.take(found.len() as int), field, size, shown));
        }
    }
}

/// A search that is grouped looks for twice as many points as there is room for in all groups, and
/// shows the first groups, at most as many as asked for.
pub proof fn law_grouped_search<K: Kernels>(
    k: &K,
    before: CollectionV,
    query: Seq<Real>,
    field: Seq<char>,
    limit: usize,
    size: usize,
    shown: Shown,
    after: CollectionV,
    r: Seq<GroupV>,
)
    requires
        groups_answer(k, before, query, field, limit, size, shown, after, r),
        2 * limit * size <= usize::MAX,
    ensures
        exists|found: Seq<(PointV, Real)>| #[trigger]
            searches(k, before, query, (2 * limit * size) as usize, unfiltered(), after, found) && r == at_most_first(
                grouping(found, field, limit, size, shown),
                limit,
            ),
{
    let found = choose|found: Seq<(PointV, Real)>| #[trigger]
        searches(k, before, query, (limit * size * 2) as usize, unfiltered(), after, found) && r == first(
            grouping(found, field, limit, size, shown),
            limit as nat,
        );
    lemma_first(grouping(found, field, limit, size, shown), limit);
    assert(limit * size * 2 == 2 * limit * size) by (nonlinear_arith);
}

/// A query with grouping is a grouped search near the vector that the query is: five groups of
/// three unless it says otherwise; a query that is no list of numbers is refused.
pub proof fn law_query_groups_request<K: Kernels>(
    k: &K,
    before: CollectionV,
    query: JsonV,
    req: GroupsRequest,
    after: CollectionV,
    r: Result<Seq<GroupV>, ApiErrorV>,
)
    requires
        query_groups_answers(k, before, query, req, after, r),
    ensures
        (r is Ok) == (query matches JsonV::Array(list) && forall|i: int| 0 <= i < list.len() ==> (#[trigger] list[i]) is Number),
        r is Ok ==> groups_answer(
            k,
            before,
            Seq::new(query->Array_0.len(), |i: int| query->Array_0[i]->Number_0.single),
            req.group_by@,
            if req.limit is Some {
                req.limit->0
            } else {
                5
            },
            if req.group_size is Some {
                req.group_size->0
            } else {
                3
            },
            shown_by(req.with_payload, req.with_vector),
            after,
            r->Ok_0,
        ),
        r is Err ==> after == before,
        r is Err && query is Array ==> r->Err_0 == ApiErrorV::InvalidQueryVector,
        r is Err && !(query is Array) ==> r->Err_0 == ApiErrorV::QueryNotArray,
{
}

} // verus!
