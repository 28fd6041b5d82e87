//! The arithmetic that the library is given.
//!
//! Scores and distances come out of floating-point arithmetic, which is supplied from outside
//! through [`Kernels`]. Nothing is promised of it: a contract that speaks of a score says which
//! operation was given which numbers, and what the library does with whatever came back.

use vstd::prelude::*;
use crate::config::Distance;
use crate::ieee::{Double, Real};
use crate::point::rows_of;

verus! {

pub trait Kernels: Sized + Sync {
    /// The dot product of two vectors.
    fn dot(&self, a: &[Real], b: &[Real]) -> Real;

    /// The Euclidean distance between two vectors.
    fn l2_distance(&self, a: &[Real], b: &[Real]) -> Real;

    /// The cosine of the angle between two vectors.
    fn cosine_similarity(&self, a: &[Real], b: &[Real]) -> Real;

    /// The vector scaled to length one.
    fn normalized(&self, a: &[Real]) -> Vec<Real>;

    /// `x + y`
    fn plus(&self, x: Real, y: Real) -> Real;

    /// `x - y`
    fn minus(&self, x: Real, y: Real) -> Real;

    /// `x * y`
    fn times(&self, x: Real, y: Real) -> Real;

    /// `x / y`
    fn quotient(&self, x: Real, y: Real) -> Real;

    /// The number next to a count.
    fn count(&self, n: usize) -> Real;

    /// Ranks documents, each a name and a text, for a text query: the names and scores of at
    /// most `limit` of them.
    fn text_search(&self, documents: &Vec<(String, String)>, query: &str, limit: usize) -> Vec<(String, Real)>;

    /// The double-precision number next to an integer.
    fn double_of(&self, n: i64) -> Double;

    /// The single-precision number next to a double-precision one.
    fn narrowed(&self, d: Double) -> Real;

    /// A double-precision number in decimal.
    fn double_text(&self, d: Double) -> String;
}

/// `r` is what the dot product of `a` and `b` came to.
pub open spec fn gives_dot<K: Kernels>(k: &K, a: Seq<Real>, b: Seq<Real>, r: Real) -> bool {
    exists|x: &[Real], y: &[Real]| x@ == a && y@ == b && #[trigger] call_ensures(K::dot, (k, x, y), r)
}

/// `r` is what the Euclidean distance between `a` and `b` came to.
pub open spec fn gives_l2<K: Kernels>(k: &K, a: Seq<Real>, b: Seq<Real>, r: Real) -> bool {
    exists|x: &[Real], y: &[Real]|
        x@ == a && y@ == b && #[trigger] call_ensures(K::l2_distance, (k, x, y), r)
}

/// `r` is what the cosine similarity of `a` and `b` came to.
pub open spec fn gives_cosine<K: Kernels>(k: &K, a: Seq<Real>, b: Seq<Real>, r: Real) -> bool {
    exists|x: &[Real], y: &[Real]|
        x@ == a && y@ == b && #[trigger] call_ensures(K::cosine_similarity, (k, x, y), r)
}

/// `r` is what scaling `a` to length one came to.
pub open spec fn gives_normalized<K: Kernels>(k: &K, a: Seq<Real>, r: Seq<Real>) -> bool {
    exists|x: &[Real], v: Vec<Real>| x@ == a && v@ == r && #[trigger] call_ensures(K::normalized, (k, x), v)
}

/// The bits of the number one.
pub const ONE_BITS: u32 = 0x3f80_0000;

/// The bits of the number two.
pub const TWO_BITS: u32 = 0x4000_0000;

/// The number zero.
pub open spec fn zero() -> Real {
    Real { bits: 0 }
}

/// The number one.
pub open spec fn one() -> Real {
    Real { bits: ONE_BITS }
}

/// The number two.
pub open spec fn two() -> Real {
    Real { bits: TWO_BITS }
}

/// `r` is what the distance `1 - dot(a, b)` came to.
pub open spec fn gives_distance<K: Kernels>(k: &K, a: Seq<Real>, b: Seq<Real>, r: Real) -> bool {
    exists|d: Real| gives_dot(k, a, b, d) && #[trigger] call_ensures(K::minus, (k, one(), d), r)
}

/// `r` is what the similarity that belongs to a distance, `1 - d`, came to.
pub open spec fn gives_similarity<K: Kernels>(k: &K, d: Real, r: Real) -> bool {
    call_ensures(K::minus, (k, one(), d), r)
}

/// The documents of a text search.
pub open spec fn documents_of(v: Seq<(String, String)>) -> Seq<(Seq<char>, Seq<char>)> {
    Seq::new(v.len(), |i: int| (v[i].0@, v[i].1@))
}

/// The names and scores that a text search came to.
pub open spec fn matches_of(v: Seq<(String, Real)>) -> Seq<(Seq<char>, Real)> {
    Seq::new(v.len(), |i: int| (v[i].0@, v[i].1))
}

/// `r` is what searching the documents for `query` came to.
pub open spec fn gives_text_search<K: Kernels>(
    k: &K,
    documents: Seq<(Seq<char>, Seq<char>)>,
    query: Seq<char>,
    limit: usize,
    r: Seq<(Seq<char>, Real)>,
) -> bool {
    exists|d: &Vec<(String, String)>, q: &str, m: Vec<(String, Real)>|
        documents_of(d@) == documents && q@ == query && matches_of(m@) == r && #[trigger] call_ensures(
            K::text_search,
            (k, d, q, limit),
            m,
        )
}

/// `1 - dot(a, b)`: how far two vectors of length one are apart.
pub fn distance_between<K: Kernels>(k: &K, a: &[Real], b: &[Real]) -> (r: Real)
    ensures
        gives_distance(k, a@, b@, r),
{
    let d = k.dot(a, b);
    assert(gives_dot(k, a@, b@, d));
    k.minus(Real { bits: ONE_BITS }, d)
}

/// The vector scaled to length one.
pub fn normalize<K: Kernels>(k: &K, a: &[Real]) -> (r: Vec<Real>)
    ensures
        gives_normalized(k, a@, r@),
{
    k.normalized(a)
}

/// How a query scores a stored vector: higher is better, whatever the distance.
pub open spec fn gives_score<K: Kernels>(k: &K, distance: Distance, query: Seq<Real>, vector: Seq<Real>, r: Real) -> bool {
    match distance {
        Distance::Cosine => gives_dot(k, query, vector, r),
        Distance::Euclidean => exists|d: Real| #[trigger] gives_l2(k, query, vector, d) && r == d.opposite(),
        Distance::Dot => gives_dot(k, query, vector, r),
    }
}

pub fn score<K: Kernels>(k: &K, distance: Distance, query: &[Real], vector: &[Real]) -> (r: Real)
    ensures
        gives_score(k, distance, query@, vector@, r),
{
    match distance {
        Distance::Cosine => k.dot(query, vector),
        Distance::Euclidean => {
            let d = k.l2_distance(query, vector);
            assert(gives_l2(k, query@, vector@, d));
            d.negated()
        },
        Distance::Dot => k.dot(query, vector),
    }
}

/// `sums` are the running sums of the products of two vectors, component by component as far as
/// both reach, from zero.
pub open spec fn product_sums<K: Kernels>(k: &K, a: Seq<Real>, b: Seq<Real>, sums: Seq<Real>) -> bool {
    &&& sums.len() == 1 + if a.len() <= b.len() {
        a.len()
    } else {
        b.len()
    }
    &&& sums[0] == zero()
    &&& forall|i: int| 0 <= i < sums.len() - 1 ==> gives_product_added(k, sums[i], a[i], b[i], #[trigger] sums[i + 1])
}

/// `r` is what `sum + x * y` came to.
pub open spec fn gives_product_added<K: Kernels>(k: &K, sum: Real, x: Real, y: Real, r: Real) -> bool {
    exists|p: Real| call_ensures(K::times, (k, x, y), p) && #[trigger] call_ensures(K::plus, (k, sum, p), r)
}

/// `r` is what adding up the products of two vectors, one after the other, came to.
pub open spec fn gives_plain_dot<K: Kernels>(k: &K, a: Seq<Real>, b: Seq<Real>, r: Real) -> bool {
    exists|sums: Seq<Real>| #[trigger] product_sums(k, a, b, sums) && sums.last() == r
}

/// Adds up the products of two vectors.
pub fn plain_dot<K: Kernels>(k: &K, a: &[Real], b: &[Real]) -> (r: Real)
    ensures
        gives_plain_dot(k, a@, b@, r),
{
    let mut sum = Real { bits: 0 };
    let ghost mut sums: Seq<Real> = seq![zero()];
    let mut i: usize = 0;
    while i < a.len() && i < b.len()
        invariant
            i <= a@.len(),
            i <= b@.len(),
            sums.len() == i + 1,
            sums[0] == zero(),
            sum == sums[i as int],
            forall|j: int| 0 <= j < i ==> gives_product_added(k, sums[j], a@[j], b@[j], #[trigger] sums[j + 1]),
        decreases a@.len() - i,
    {
        let ghost before = sums;
        let p = k.times(a[i], b[i]);
        let next = k.plus(sum, p);
        assert(gives_product_added(k, sum, a@[i as int], b@[i as int], next));
        sum = next;
        proof {
            sums = sums.push(sum);
            assert forall|j: int| 0 <= j < i + 1 implies gives_product_added(
                k,
                sums[j],
                a@[j],
                b@[j],
                #[trigger] sums[j + 1],
            ) by {
                if j < i {
                    assert(sums[j] == before[j] && sums[j + 1] == before[j + 1]);
                }
            }
        }
        i += 1;
    }
    assert(product_sums(k, a@, b@, sums));
    sum
}

/// How a query that is not scaled to length one scores a stored vector.
pub open spec fn gives_plain_score<K: Kernels>(
    k: &K,
    distance: Distance,
    query: Seq<Real>,
    vector: Seq<Real>,
    r: Real,
) -> bool {
    match distance {
        Distance::Cosine => gives_cosine(k, vector, query, r),
        Distance::Euclidean => exists|d: Real| #[trigger] gives_l2(k, vector, query, d) && r == d.opposite(),
        Distance::Dot => gives_plain_dot(k, vector, query, r),
    }
}

pub fn plain_score<K: Kernels>(k: &K, distance: Distance, query: &[Real], vector: &[Real]) -> (r: Real)
    ensures
        gives_plain_score(k, distance, query@, vector@, r),
{
    match distance {
        Distance::Cosine => k.cosine_similarity(vector, query),
        Distance::Euclidean => {
            let d = k.l2_distance(vector, query);
            assert(gives_l2(k, vector@, query@, d));
            d.negated()
        },
        Distance::Dot => plain_dot(k, vector, query),
    }
}

/// The similarity that belongs to a distance.
pub fn similarity<K: Kernels>(k: &K, d: Real) -> (r: Real)
    ensures
        gives_similarity(k, d, r),
{
    k.minus(Real { bits: ONE_BITS }, d)
}

/// `r` is what dividing a sum by a count came to.
pub open spec fn gives_share_of<K: Kernels>(k: &K, sum: Real, n: usize, r: Real) -> bool {
    exists|c: Real| call_ensures(K::count, (k, n), c) && #[trigger] call_ensures(K::quotient, (k, sum, c), r)
}

/// `sums` are the running sums of component `i` over `rows`, from zero; a row that is too short
/// to have that component adds nothing.
pub open spec fn running_sums<K: Kernels>(k: &K, rows: Seq<Seq<Real>>, i: int, sums: Seq<Real>) -> bool {
    &&& sums.len() == rows.len() + 1
    &&& sums[0] == zero()
    &&& forall|j: int|
        0 <= j < rows.len() ==> if i < rows[j].len() {
            call_ensures(K::plus, (k, sums[j], rows[j][i]), #[trigger] sums[j + 1])
        } else {
            sums[j + 1] == sums[j]
        }
}

/// `r` is what the mean of component `i` over `rows` came to.
pub open spec fn gives_mean_at<K: Kernels>(k: &K, rows: Seq<Seq<Real>>, i: int, r: Real) -> bool {
    exists|sums: Seq<Real>| #[trigger]
        running_sums(k, rows, i, sums) && gives_share_of(k, sums[rows.len() as int], rows.len() as usize, r)
}

/// `r` is what the mean of the first `dim` components over `rows` came to.
pub open spec fn gives_mean<K: Kernels>(k: &K, rows: Seq<Seq<Real>>, dim: nat, r: Seq<Real>) -> bool {
    r.len() == dim && forall|i: int| 0 <= i < dim ==> gives_mean_at(k, rows, i, #[trigger] r[i])
}

/// The mean of the rows, component by component.
pub fn mean<K: Kernels>(k: &K, rows: &Vec<Vec<Real>>, dim: usize) -> (r: Vec<Real>)
    ensures
        gives_mean(k, rows_of(rows@), dim as nat, r@),
{
    let mut r: Vec<Real> = Vec::new();
    let ghost all = rows_of(rows@);
    let mut i: usize = 0;
    while i < dim
        invariant
            i <= dim,
            r@.len() == i,
            all == rows_of(rows@),
            forall|c: int| 0 <= c < i ==> gives_mean_at(k, all, c, #[trigger] r@[c]),
        decreases dim - i,
    {
        let mut sum: Real = Real { bits: 0 };
        let ghost mut sums: Seq<Real> = seq![zero()];
        let mut j: usize = 0;
        while j < rows.len()
            invariant
                j <= rows@.len(),
                all == rows_of(rows@),
                sums.len() == j + 1,
                sums[0] == zero(),
                sum == sums[j as int],
                forall|l: int|
                    0 <= l < j ==> if i < all[l].len() {
                        call_ensures(K::plus, (k, sums[l], all[l][i as int]), #[trigger] sums[l + 1])
                    } else {
                        sums[l + 1] == sums[l]
                    },
            decreases rows@.len() - j,
        {
            let ghost before = sums;
            assert(all[j as int] == rows@[j as int]@);
            if i < rows[j].len() {
                let next = k.plus(sum, rows[j][i]);
                sum = next;
            }
            proof {
                sums = sums.push(sum);
                assert forall|l: int| 0 <= l < j + 1 implies if i < all[l].len() {
                    call_ensures(K::plus, (k, sums[l], all[l][i as int]), #[trigger] sums[l + 1])
                } else {
                    sums[l + 1] == sums[l]
                } by {
                    if l < j {
                        assert(sums[l] == before[l] && sums[l + 1] == before[l + 1]);
                    }
                }
            }
            j += 1;
        }
        let rows_count = k.count(rows.len());
        let m = k.quotient(sum, rows_count);
        assert(gives_share_of(k, sum, rows@.len() as usize, m));
        assert(running_sums(k, all, i as int, sums));
        assert(gives_mean_at(k, all, i as int, m));
        r.push(m);
        i += 1;
    }
    r
}

/// `r` is what `2 * p - n` came to.
pub open spec fn gives_twice_minus<K: Kernels>(k: &K, p: Real, n: Real, r: Real) -> bool {
    exists|t: Real| call_ensures(K::times, (k, two(), p), t) && #[trigger] call_ensures(K::minus, (k, t, n), r)
}

/// `r` is what `2 * p - n` came to, component by component as far as both reach.
pub open spec fn gives_steered<K: Kernels>(k: &K, p: Seq<Real>, n: Seq<Real>, r: Seq<Real>) -> bool {
    &&& r.len() == if p.len() <= n.len() {
        p.len()
    } else {
        n.len()
    }
    &&& forall|i: int| 0 <= i < r.len() ==> gives_twice_minus(k, p[i], n[i], #[trigger] r[i])
}

/// Moves from `n` towards `p` and as far again.
pub fn steer<K: Kernels>(k: &K, p: &Vec<Real>, n: &Vec<Real>) -> (r: Vec<Real>)
    ensures
        gives_steered(k, p@, n@, r@),
{
    let mut r: Vec<Real> = Vec::new();
    let mut i: usize = 0;
    while i < p.len() && i < n.len()
        invariant
            i <= p@.len(),
            i <= n@.len(),
            r@.len() == i,
            forall|c: int| 0 <= c < i ==> gives_twice_minus(k, p@[c], n@[c], #[trigger] r@[c]),
        decreases p@.len() - i,
    {
        let twice = k.times(Real { bits: TWO_BITS }, p[i]);
        let x = k.minus(twice, n[i]);
        assert(gives_twice_minus(k, p@[i as int], n@[i as int], x));
        r.push(x);
        i += 1;
    }
    r
}

/// `r` is what a query made of examples came to: the mean of the liked vectors, moved away from
/// the mean of the disliked ones if there are any.
pub open spec fn gives_example_query<K: Kernels>(
    k: &K,
    liked: Seq<Seq<Real>>,
    disliked: Seq<Seq<Real>>,
    r: Seq<Real>,
) -> bool {
    if disliked.len() == 0 {
        gives_mean(k, liked, liked[0].len(), r)
    } else {
        exists|p: Seq<Real>, n: Seq<Real>| #[trigger]
            gives_mean(k, liked, liked[0].len(), p) && #[trigger] gives_mean(k, disliked, liked[0].len(), n)
                && gives_steered(k, p, n, r)
    }
}

pub fn example_query<K: Kernels>(k: &K, liked: &Vec<Vec<Real>>, disliked: &Vec<Vec<Real>>) -> (r: Vec<Real>)
    requires
        liked@.len() > 0,
    ensures
        gives_example_query(k, rows_of(liked@), rows_of(disliked@), r@),
{
    let dim: usize = liked[0].len();
    assert(rows_of(liked@)[0] == liked@[0]@);
    let p = mean(k, liked, dim);
    if disliked.len() > 0 {
        let n = mean(k, disliked, dim);
        steer(k, &p, &n)
    } else {
        p
    }
}

/// `r` is what the place `rank`, counted from zero, adds to a fused score: `1 / (1 + rank + 1)`.
pub open spec fn gives_rank_share<K: Kernels>(k: &K, rank: usize, r: Real) -> bool {
    exists|c: Real, a: Real, b: Real|
        call_ensures(K::count, (k, rank), c) && #[trigger] call_ensures(K::plus, (k, one(), c), a)
            && #[trigger] call_ensures(K::plus, (k, a, one()), b) && call_ensures(K::quotient, (k, one(), b), r)
}

pub fn rank_share<K: Kernels>(k: &K, rank: usize) -> (r: Real)
    ensures
        gives_rank_share(k, rank, r),
{
    let one = Real { bits: ONE_BITS };
    let place = k.count(rank);
    let next = k.plus(one, place);
    let below = k.plus(next, one);
    k.quotient(one, below)
}

} // verus!
