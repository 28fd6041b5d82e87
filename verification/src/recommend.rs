//! Recommendations: points like some examples and unlike others.

use vstd::prelude::*;
use crate::api::{hits_of, record, record_of, shown_hits, ApiError, ApiErrorV, Hit, RecordV};
use crate::collection::{searches, Collection, CollectionV};
use crate::filter::PayloadFilter;
use crate::hnsw::scored_of;
use crate::ieee::Real;
use crate::json::{items, texts, Json, JsonV};
use crate::kernels::{example_query, gives_example_query, Kernels};
use crate::lists::{lemma_prefix_grows, lemma_turned_rest, turned};
use crate::point::{copy_reals, rows_of, Point, PointV, Vector};
use crate::rest_read::{amount, amount_or};
use crate::rest_search::{first, hits_answer, read_shown, shown_by, unfiltered};
use crate::rest_write::{keys_in, read_keys};
use crate::scoring::pass_of;
use crate::store::point_under;
use crate::text::{copied, same_text};

verus! {

/// The keys of a list, each once, in the order in which they first come up.
pub open spec fn each_once(keys: Seq<Seq<char>>) -> Seq<Seq<char>>
    decreases keys.len(),
{
    if keys.len() == 0 {
        Seq::empty()
    } else if each_once(keys.drop_last()).contains(keys.last()) {
        each_once(keys.drop_last())
    } else {
        each_once(keys.drop_last()).push(keys.last())
    }
}

/// Every key of a list is there once, and no other.
pub proof fn law_each_once(keys: Seq<Seq<char>>)
    ensures
        each_once(keys).no_duplicates(),
        forall|key: Seq<char>| #[trigger] each_once(keys).contains(key) == keys.contains(key),
        each_once(keys).len() <= keys.len(),
    decreases keys.len(),
{
    if keys.len() > 0 {
        let before = each_once(keys.drop_last());
        law_each_once(keys.drop_last());
        assert forall|key: Seq<char>| #[trigger] each_once(keys).contains(key) == keys.contains(key) by {
            assert(keys =~= keys.drop_last().push(keys.last()));
            if keys.contains(key) {
                let i = choose|i: int| 0 <= i < keys.len() && keys[i] == key;
                if i < keys.len() - 1 {
                    assert(keys.drop_last()[i] == key);
                    assert(before.contains(key));
                    let j = choose|j: int| 0 <= j < before.len() && before[j] == key;
                    assert(each_once(keys)[j] == key);
                } else if !before.contains(key) {
                    assert(each_once(keys)[before.len() as int] == key);
                }
            }
            if each_once(keys).contains(key) {
                let j = choose|j: int| 0 <= j < each_once(keys).len() && each_once(keys)[j] == key;
                if j < before.len() {
                    assert(before[j] == key);
                    assert(before.contains(key));
                    let i = choose|i: int| 0 <= i < keys.drop_last().len() && keys.drop_last()[i] == key;
                    assert(keys[i] == key);
                } else {
                    assert(keys[keys.len() - 1] == key);
                }
            }
        }
    }
}

/// The vectors of the examples that are stored.
pub open spec fn example_rows(points: Seq<PointV>, keys: Seq<Seq<char>>) -> Seq<Seq<Real>>
    decreases keys.len(),
{
    if keys.len() == 0 {
        Seq::empty()
    } else {
        let rest = example_rows(points, keys.drop_last());
        match point_under(points, keys.last()) {
            Some(p) => rest.push(p.vector),
            None => rest,
        }
    }
}

/// What was found, without the points under some keys.
pub open spec fn without_points(found: Seq<(PointV, Real)>, keys: Seq<Seq<char>>) -> Seq<(PointV, Real)>
    decreases found.len(),
{
    if found.len() == 0 {
        Seq::empty()
    } else if keys.contains(found.last().0.key()) {
        without_points(found.drop_last(), keys)
    } else {
        without_points(found.drop_last(), keys).push(found.last())
    }
}

/// What was found with a score that is not below the threshold.
pub open spec fn not_below(found: Seq<(PointV, Real)>, threshold: Option<Real>) -> Seq<(PointV, Real)>
    decreases found.len(),
{
    if found.len() == 0 {
        Seq::empty()
    } else {
        let rest = not_below(found.drop_last(), threshold);
        match threshold {
            Some(t) => if found.last().1.less(t) {
                rest
            } else {
                rest.push(found.last())
            },
            None => rest.push(found.last()),
        }
    }
}

/// The keys of the examples, liked or disliked.
pub open spec fn example_keys(liked: Seq<Seq<char>>, disliked: Seq<Seq<char>>) -> Seq<Seq<char>> {
    each_once(liked + disliked)
}

/// What a search from examples finds: as many points more than asked for as there are examples,
/// without the examples themselves.
pub open spec fn found_like<K: Kernels>(
    k: &K,
    before: CollectionV,
    liked: Seq<Seq<char>>,
    disliked: Seq<Seq<char>>,
    limit: usize,
    after: CollectionV,
    r: Seq<(PointV, Real)>,
) -> bool {
    exists|query: Seq<Real>, found: Seq<(PointV, Real)>| #[trigger]
        gives_example_query(k, example_rows(before.points, liked), example_rows(before.points, disliked), query)
            && #[trigger] searches(
            k,
            before,
            query,
            (limit + example_keys(liked, disliked).len()) as usize,
            unfiltered(),
            after,
            found,
        ) && r == without_points(found, example_keys(liked, disliked))
}

fn has_key(keys: &Vec<String>, key: &str) -> (r: bool)
    ensures
        r == texts(keys@).contains(key@),
{
    let mut i: usize = 0;
    while i < keys.len()
        invariant
            i <= keys@.len(),
            forall|j: int| 0 <= j < i ==> (#[trigger] texts(keys@)[j]) != key@,
        decreases keys@.len() - i,
    {
        if same_text(keys[i].as_str(), key) {
            assert(texts(keys@)[i as int] == key@);
            return true;
        }
        i += 1;
    }
    false
}

/// The keys of two lists, each once.
fn keys_once(liked: &Vec<String>, disliked: &Vec<String>) -> (r: Vec<String>)
    ensures
        texts(r@) == example_keys(texts(liked@), texts(disliked@)),
{
    let ghost all = texts(liked@) + texts(disliked@);
    let mut r: Vec<String> = Vec::new();
    let mut i: usize = 0;
    assert(texts(r@) =~= each_once(all.take(0)));
    while i < liked.len()
        invariant
            i <= liked@.len(),
            all == texts(liked@) + texts(disliked@),
            texts(r@) == each_once(all.take(i as int)),
        decreases liked@.len() - i,
    {
        proof {
            lemma_prefix_grows(all, i as int);
            assert(all[i as int] == liked@[i as int]@);
        }
        if !has_key(&r, liked[i].as_str()) {
            let ghost r0 = r@;
            let key = copied(liked[i].as_str());
            let ghost key_v = key@;
            r.push(key);
            assert(texts(r@) =~= texts(r0).push(key_v));
        }
        i += 1;
    }
    let mut j: usize = 0;
    while j < disliked.len()
        invariant
            j <= disliked@.len(),
            all == texts(liked@) + texts(disliked@),
            texts(r@) == each_once(all.take(liked@.len() + j)),
        decreases disliked@.len() - j,
    {
        proof {
            lemma_prefix_grows(all, liked@.len() + j);
            assert(all[liked@.len() + j] == disliked@[j as int]@);
        }
        if !has_key(&r, disliked[j].as_str()) {
            let ghost r0 = r@;
            let key = copied(disliked[j].as_str());
            let ghost key_v = key@;
            r.push(key);
            assert(texts(r@) =~= texts(r0).push(key_v));
        }
        j += 1;
    }
    assert(all.take(all.len() as int) =~= all);
    r
}

/// Reads the vectors of the examples that are stored.
fn read_examples(collection: &Collection, keys: &Vec<String>) -> (r: Vec<Vec<Real>>)
    requires
        collection.wf(),
    ensures
        rows_of(r@) == example_rows(collection@.points, texts(keys@)),
{
    let ghost all = texts(keys@);
    let mut r: Vec<Vec<Real>> = Vec::new();
    let mut i: usize = 0;
    assert(rows_of(r@) =~= example_rows(collection@.points, all.take(0)));
    while i < keys.len()
        invariant
            collection.wf(),
            i <= keys@.len(),
            all == texts(keys@),
            rows_of(r@) == example_rows(collection@.points, all.take(i as int)),
        decreases keys@.len() - i,
    {
        proof {
            lemma_prefix_grows(all, i as int);
        }
        match collection.get(keys[i].as_str()) {
            Some(p) => {
                let ghost r0 = r@;
                let row = copy_reals(&p.vector.data);
                let ghost row_v = row@;
                r.push(row);
                assert(rows_of(r@) =~= rows_of(r0).push(row_v));
            },
            None => {},
        }
        i += 1;
    }
    assert(all.take(all.len() as int) =~= all);
    r
}

/// Drops the points under some keys.
fn drop_points(found: Vec<(Point, Real)>, keys: &Vec<String>) -> (r: Vec<(Point, Real)>)
    ensures
        scored_of(r@) == without_points(scored_of(found@), texts(keys@)),
{
    let ghost given = found@;
    let ghost all = scored_of(found@);
    let mut rest = turned(found);
    let mut r: Vec<(Point, Real)> = Vec::new();
    let ghost mut done: int = 0;
    proof {
        assert(given.skip(0) =~= given);
        assert(scored_of(r@) =~= without_points(all.take(0), texts(keys@)));
    }
    while rest.len() > 0
        invariant
            0 <= done <= all.len(),
            all == scored_of(given),
            rest@ == given.skip(done).reverse(),
            scored_of(r@) == without_points(all.take(done), texts(keys@)),
        decreases rest@.len(),
    {
        proof {
            lemma_turned_rest(given, done);
            lemma_prefix_grows(all, done);
        }
        let ghost r0 = r@;
        if let Some(p) = rest.pop() {
            let ghost pair = (p.0@, p.1);
            assert(pair == all[done]);
            let this = p.0.id.key();
            if !has_key(keys, this.as_str()) {
                r.push(p);
                assert(scored_of(r@) =~= scored_of(r0).push(pair));
            }
            proof {
                done = done + 1;
            }
        }
    }
    assert(all.take(done) =~= all);
    r
}

/// How many points a search from examples looks for.
pub open spec fn like_span(limit: usize, liked: Seq<Seq<char>>, disliked: Seq<Seq<char>>) -> int {
    limit + example_keys(liked, disliked).len()
}

/// Searches from examples, at least one of which is liked and stored; nothing otherwise.
pub fn search_like<K: Kernels>(
    collection: &mut Collection,
    k: &K,
    liked: &Vec<String>,
    disliked: &Vec<String>,
    limit: usize,
) -> (r: Option<Vec<(Point, Real)>>)
    requires
        old(collection).wf(),
        example_rows(old(collection)@.points, texts(liked@)).len() > 0 ==> like_span(
            limit,
            texts(liked@),
            texts(disliked@),
        ) <= usize::MAX,
    ensures
        final(collection).wf(),
        match r {
            Some(found) => example_rows(old(collection)@.points, texts(liked@)).len() > 0 && found_like(
                k,
                old(collection)@,
                texts(liked@),
                texts(disliked@),
                limit,
                final(collection)@,
                scored_of(found@),
            ),
            None => example_rows(old(collection)@.points, texts(liked@)).len() == 0 && final(collection)@ == old(
                collection,
            )@,
        },
{
    let likes = read_examples(collection, liked);
    assert(rows_of(likes@).len() == likes@.len());
    if likes.len() == 0 {
        return None;
    }
    let dislikes = read_examples(collection, disliked);
    let query = Vector::new(example_query(k, &likes, &dislikes));
    let keys = keys_once(liked, disliked);
    assert(texts(keys@).len() == keys@.len());
    let ghost before = collection@;
    assert(pass_of(None::<&PayloadFilter>) =~= unfiltered());
    let found = collection.search(k, &query, limit + keys.len(), None::<&PayloadFilter>);
    let ghost found_v = scored_of(found@);
    let r = drop_points(found, &keys);
    assert(gives_example_query(
        k,
        example_rows(before.points, texts(liked@)),
        example_rows(before.points, texts(disliked@)),
        query@,
    ));
    assert(found_like(k, before, texts(liked@), texts(disliked@), limit, collection@, scored_of(r@)));
    Some(r)
}

/// A request for recommendations.
pub struct RecommendRequest {
    pub positive: Vec<Json>,
    pub negative: Vec<Json>,
    pub limit: Option<usize>,
    pub with_payload: Option<bool>,
    pub with_vector: Option<bool>,
    pub score_threshold: Option<Real>,
}

/// How many recommendations are shown at most. The limit is looked at after each of them, so
/// one comes through in any case.
pub open spec fn at_least_one(limit: usize) -> nat {
    if limit == 0 {
        1
    } else {
        limit as nat
    }
}

/// What is shown of what a search from examples found.
pub open spec fn recommended(found: Seq<(PointV, Real)>, req: RecommendRequest) -> Seq<(RecordV, Real)> {
    shown_hits(
        first(not_below(found, req.score_threshold), at_least_one(amount(req.limit, 10))),
        shown_by(req.with_payload, req.with_vector),
    )
}

/// A search from examples, and what is shown of it.
pub open spec fn recommends_like<K: Kernels>(
    k: &K,
    before: CollectionV,
    req: RecommendRequest,
    after: CollectionV,
    r: Seq<(RecordV, Real)>,
) -> bool {
    exists|found: Seq<(PointV, Real)>| #[trigger]
        found_like(
            k,
            before,
            keys_in(items(req.positive@)),
            keys_in(items(req.negative@)),
            amount(req.limit, 10),
            after,
            found,
        ) && r == recommended(found, req)
}

/// What a request for recommendations comes to.
pub open spec fn recommend_answers<K: Kernels>(
    k: &K,
    before: CollectionV,
    req: RecommendRequest,
    after: CollectionV,
    r: Result<Seq<(RecordV, Real)>, ApiErrorV>,
) -> bool {
    if example_rows(before.points, keys_in(items(req.positive@))).len() == 0 {
        after == before && r == Err::<Seq<(RecordV, Real)>, ApiErrorV>(ApiErrorV::PositiveRequired)
    } else {
        r is Ok && recommends_like(k, before, req, after, r->Ok_0)
    }
}

proof fn lemma_first_stays(all: Seq<(PointV, Real)>, threshold: Option<Real>, i: int, limit: nat)
    requires
        0 <= i <= all.len(),
        not_below(all.take(i), threshold).len() >= limit,
    ensures
        first(not_below(all, threshold), limit) == first(not_below(all.take(i), threshold), limit),
    decreases all.len() - i,
{
    if i < all.len() {
        lemma_prefix_grows(all, i);
        lemma_first_stays(all, threshold, i + 1, limit);
        let small = not_below(all.take(i), threshold);
        let large = not_below(all.take(i + 1), threshold);
        assert(first(large, limit) =~= first(small, limit));
    } else {
        assert(all.take(i) =~= all);
    }
}

proof fn lemma_without_points(found: Seq<(PointV, Real)>, keys: Seq<Seq<char>>)
    ensures
        forall|i: int|
            0 <= i < without_points(found, keys).len() ==> !keys.contains(
                (#[trigger] without_points(found, keys)[i]).0.key(),
            ),
    decreases found.len(),
{
    if found.len() > 0 {
        let rest = without_points(found.drop_last(), keys);
        let all = without_points(found, keys);
        lemma_without_points(found.drop_last(), keys);
        assert forall|i: int| 0 <= i < all.len() implies !keys.contains((#[trigger] all[i]).0.key()) by {
            if i < rest.len() {
                assert(all[i] == rest[i]);
            }
        }
    }
}

proof fn lemma_not_below(found: Seq<(PointV, Real)>, threshold: Option<Real>)
    ensures
        forall|i: int|
            0 <= i < not_below(found, threshold).len() ==> found.contains(#[trigger] not_below(found, threshold)[i])
                && (threshold matches Some(t) ==> !not_below(found, threshold)[i].1.less(t)),
    decreases found.len(),
{
    if found.len() > 0 {
        let rest = found.drop_last();
        lemma_not_below(rest, threshold);
        let all = not_below(found, threshold);
        assert forall|i: int| 0 <= i < all.len() implies found.contains(#[trigger] all[i]) && (threshold matches Some(t)
            ==> !all[i].1.less(t)) by {
            if i < not_below(rest, threshold).len() {
                assert(all[i] == not_below(rest, threshold)[i]);
                assert(rest.contains(all[i]));
                let j = choose|j: int| 0 <= j < rest.len() && rest[j] == all[i];
                assert(found[j] == all[i]);
            } else {
                assert(found[found.len() - 1] == all[i]);
            }
        }
    }
}

/// None of the examples is recommended, nor a point whose score is below the threshold; and there
/// are no more recommendations than asked for, or one.
pub proof fn law_examples_not_recommended<K: Kernels>(
    k: &K,
    before: CollectionV,
    req: RecommendRequest,
    after: CollectionV,
    found: Seq<(PointV, Real)>,
    i: int,
)
    requires
        found_like(
            k,
            before,
            keys_in(items(req.positive@)),
            keys_in(items(req.negative@)),
            amount(req.limit, 10),
            after,
            found,
        ),
        0 <= i < recommended(found, req).len(),
    ensures
        !keys_in(items(req.positive@)).contains(recommended(found, req)[i].0.id.key()),
        !keys_in(items(req.negative@)).contains(recommended(found, req)[i].0.id.key()),
        req.score_threshold matches Some(t) ==> !recommended(found, req)[i].1.less(t),
        recommended(found, req).len() <= at_least_one(amount(req.limit, 10)),
{
    let liked = keys_in(items(req.positive@));
    let disliked = keys_in(items(req.negative@));
    let keys = example_keys(liked, disliked);
    let (query, all) = choose|query: Seq<Real>, all: Seq<(PointV, Real)>| #[trigger]
        gives_example_query(k, example_rows(before.points, liked), example_rows(before.points, disliked), query)
            && #[trigger] searches(
            k,
            before,
            query,
            (amount(req.limit, 10) + example_keys(liked, disliked).len()) as usize,
            unfiltered(),
            after,
            all,
        ) && found == without_points(all, example_keys(liked, disliked));
    lemma_without_points(all, keys);
    lemma_not_below(found, req.score_threshold);
    law_each_once(liked + disliked);
    let kept = not_below(found, req.score_threshold);
    assert(found.contains(kept[i]));
    let j = choose|j: int| 0 <= j < found.len() && found[j] == kept[i];
    let key = kept[i].0.key();
    assert(!keys.contains(key));
    assert(!(liked + disliked).contains(key));
    if liked.contains(key) {
        let m = choose|m: int| 0 <= m < liked.len() && liked[m] == key;
        assert((liked + disliked)[m] == key);
    }
    if disliked.contains(key) {
        let m = choose|m: int| 0 <= m < disliked.len() && disliked[m] == key;
        assert((liked + disliked)[liked.len() + m] == key);
    }
}

/// Shows what a search from examples found.
pub fn show_recommended(found: &Vec<(Point, Real)>, req: &RecommendRequest) -> (r: Vec<Hit>)
    ensures
        hits_of(r@) == recommended(scored_of(found@), *req),
{
    let limit: usize = amount_or(req.limit, 10);
    let shown = read_shown(req.with_payload, req.with_vector);
    let ghost all = scored_of(found@);
    let ghost threshold = req.score_threshold;
    let mut r: Vec<Hit> = Vec::new();
    let mut i: usize = 0;
    let mut full = false;
    assert(hits_of(r@) =~= shown_hits(not_below(all.take(0), threshold), shown));
    while i < found.len() && !full
        invariant
            i <= found@.len(),
            all == scored_of(found@),
            threshold == req.score_threshold,
            hits_of(r@) == shown_hits(not_below(all.take(i as int), threshold), shown),
            r@.len() <= at_least_one(limit),
            full == (r@.len() == at_least_one(limit)),
        decreases found@.len() - i,
    {
        proof {
            lemma_prefix_grows(all, i as int);
        }
        let score = found[i].1;
        let skip = match req.score_threshold {
            Some(t) => score.lt(t),
            None => false,
        };
        if !skip {
            let ghost r0 = r@;
            let hit = Hit { record: record(&found[i].0, shown, Json::Null), score };
            let ghost hit_v = (record_of(all[i as int].0, shown, JsonV::Null), score);
            r.push(hit);
            assert(hits_of(r@) =~= hits_of(r0).push(hit_v));
            assert(shown_hits(not_below(all.take(i + 1), threshold), shown) =~= shown_hits(
                not_below(all.take(i as int), threshold),
                shown,
            ).push(hit_v));
            if r.len() >= limit {
                full = true;
            }
        }
        i += 1;
    }
    proof {
        let kept = not_below(all.take(i as int), threshold);
        assert(kept.len() == hits_of(r@).len());
        if full {
            lemma_first_stays(all, threshold, i as int, at_least_one(limit));
            assert(first(kept, at_least_one(limit)) =~= kept);
        } else {
            assert(all.take(i as int) =~= all);
        }
    }
    r
}

/// Recommend points like the positive examples and unlike the negative ones
pub fn recommend_points<K: Kernels>(collection: &mut Collection, k: &K, req: &RecommendRequest) -> (r: Result<
    Vec<Hit>,
    ApiError,
>)
    requires
        old(collection).wf(),
        example_rows(old(collection)@.points, keys_in(items(req.positive@))).len() > 0 ==> like_span(
            amount(req.limit, 10),
            keys_in(items(req.positive@)),
            keys_in(items(req.negative@)),
        ) <= usize::MAX,
    ensures
        final(collection).wf(),
        recommend_answers(k, old(collection)@, *req, final(collection)@, hits_answer(r)),
{
    let liked = read_keys(&req.positive);
    let disliked = read_keys(&req.negative);
    let ghost before = collection@;
    match search_like(collection, k, &liked, &disliked, amount_or(req.limit, 10)) {
        Some(found) => {
            let hits = show_recommended(&found, req);
            assert(recommends_like(k, before, *req, collection@, hits_of(hits@)));
            Ok(hits)
        },
        None => Err(ApiError::PositiveRequired),
    }
}

} // verus!
