//! What sums, means and products of vectors come to, operation by operation.

use vstd::prelude::*;
use crate::ieee::Real;
use crate::kernels::{
    documents_of, gives_cosine, gives_distance, gives_dot, gives_example_query, gives_l2,
    gives_mean, gives_mean_at, gives_normalized, gives_product_added, gives_rank_share,
    gives_share_of, gives_steered, gives_text_search, gives_twice_minus, matches_of, one,
    running_sums, Kernels,
};
use crate::point::SparseVectorV;
use crate::search_laws::adds_product;
use crate::similarity::{entries, factor_sums, factors_at, gives_sparse_dot, shared_factors};

verus! {

// ---------------------------------------------------------------------------------------------
// Examples

/// The sums of the `i`-th components of rows, one row after the other, from zero on; a row that is
/// too short adds nothing.
pub open spec fn adds_up_rows<K: Kernels>(k: &K, rows: Seq<Seq<Real>>, i: int, sums: Seq<Real>) -> bool {
    &&& sums.len() == rows.len() + 1
    &&& sums[0].bits == 0
    &&& forall|j: int|
        0 <= j < rows.len() ==> if i < rows[j].len() {
            call_ensures(K::plus, (k, sums[j], rows[j][i]), #[trigger] sums[j + 1])
        } else {
            sums[j + 1] == sums[j]
        }
}

/// The mean of the `i`-th components of all rows: their sum, divided by how many rows there are.
pub open spec fn mean_of_all<K: Kernels>(k: &K, rows: Seq<Seq<Real>>, i: int, r: Real) -> bool {
    exists|sums: Seq<Real>, n: Real| #[trigger]
        adds_up_rows(k, rows, i, sums) && call_ensures(K::count, (k, rows.len() as usize), n) && #[trigger] call_ensures(
            K::quotient,
            (k, sums[rows.len() as int], n),
            r,
        )
}

/// Twice one number, minus another.
pub open spec fn doubled_minus<K: Kernels>(k: &K, p: Real, n: Real, r: Real) -> bool {
    exists|t: Real| #[trigger]
        call_ensures(K::times, (k, Real { bits: 0x4000_0000 }, p), t) && call_ensures(K::minus, (k, t, n), r)
}

proof fn lemma_mean<K: Kernels>(k: &K, rows: Seq<Seq<Real>>, dim: nat, r: Seq<Real>)
    requires
        gives_mean(k, rows, dim, r),
    ensures
        r.len() == dim,
        forall|i: int| 0 <= i < dim ==> mean_of_all(k, rows, i, #[trigger] r[i]),
{
    assert forall|i: int| 0 <= i < dim implies mean_of_all(k, rows, i, #[trigger] r[i]) by {
        assert(gives_mean_at(k, rows, i, r[i]));
        let sums = choose|sums: Seq<Real>| #[trigger]
            running_sums(k, rows, i, sums) && gives_share_of(k, sums[rows.len() as int], rows.len() as usize, r[i]);
        let n = choose|n: Real|
            call_ensures(K::count, (k, rows.len() as usize), n) && #[trigger] call_ensures(
                K::quotient,
                (k, sums[rows.len() as int], n),
                r[i],
            );
        assert(adds_up_rows(k, rows, i, sums));
    }
}

/// Every example counts. Without examples that are disliked, a component of the query is the mean
/// of that component of all examples that are liked; with some, it is twice that mean, minus the
/// mean over all that are disliked.
pub proof fn law_every_example_counts<K: Kernels>(
    k: &K,
    liked: Seq<Seq<Real>>,
    disliked: Seq<Seq<Real>>,
    r: Seq<Real>,
)
    requires
        gives_example_query(k, liked, disliked, r),
        liked.len() > 0,
    ensures
        r.len() == liked[0].len(),
        disliked.len() == 0 ==> forall|i: int| 0 <= i < r.len() ==> mean_of_all(k, liked, i, #[trigger] r[i]),
        disliked.len() > 0 ==> exists|p: Seq<Real>, n: Seq<Real>| #[trigger]
            steered_by_means(k, liked, disliked, p, n, r),
{
    if disliked.len() == 0 {
        lemma_mean(k, liked, liked[0].len(), r);
    } else {
        let (p, n) = choose|p: Seq<Real>, n: Seq<Real>| #[trigger]
            gives_mean(k, liked, liked[0].len(), p) && #[trigger] gives_mean(k, disliked, liked[0].len(), n)
                && gives_steered(k, p, n, r);
        lemma_mean(k, liked, liked[0].len(), p);
        lemma_mean(k, disliked, liked[0].len(), n);
        assert forall|i: int| 0 <= i < r.len() implies mean_of_all(k, liked, i, p[i]) && mean_of_all(
            k,
            disliked,
            i,
            n[i],
        ) && doubled_minus(k, p[i], n[i], #[trigger] r[i]) by {
            assert(gives_twice_minus(k, p[i], n[i], r[i]));
        }
        assert(steered_by_means(k, liked, disliked, p, n, r));
    }
}

/// Every component is twice the mean of the examples that are liked, minus the mean of those that
/// are disliked.
pub open spec fn steered_by_means<K: Kernels>(
    k: &K,
    liked: Seq<Seq<Real>>,
    disliked: Seq<Seq<Real>>,
    p: Seq<Real>,
    n: Seq<Real>,
    r: Seq<Real>,
) -> bool {
    forall|i: int|
        0 <= i < r.len() ==> mean_of_all(k, liked, i, p[i]) && mean_of_all(k, disliked, i, n[i]) && doubled_minus(
            k,
            p[i],
            n[i],
            #[trigger] r[i],
        )
}

/// The query of two examples that are liked: a component is zero, plus that of the one, plus that
/// of the other, divided by two.
pub proof fn law_two_examples<K: Kernels>(k: &K, a: Seq<Real>, b: Seq<Real>, r: Seq<Real>, i: int)
    requires
        gives_example_query(k, seq![a, b], Seq::empty(), r),
        0 <= i < a.len(),
        i < b.len(),
    ensures
        r.len() == a.len(),
        exists|s: Real, t: Real, n: Real|
            call_ensures(K::plus, (k, Real { bits: 0 }, a[i]), s) && call_ensures(K::plus, (k, s, b[i]), t)
                && call_ensures(K::count, (k, 2usize), n) && call_ensures(K::quotient, (k, t, n), r[i]),
{
    let rows = seq![a, b];
    law_every_example_counts(k, rows, Seq::empty(), r);
    assert(mean_of_all(k, rows, i, r[i]));
    let (sums, n) = choose|sums: Seq<Real>, n: Real| #[trigger]
        adds_up_rows(k, rows, i, sums) && call_ensures(K::count, (k, rows.len() as usize), n) && #[trigger] call_ensures(
            K::quotient,
            (k, sums[rows.len() as int], n),
            r[i],
        );
    assert(sums[0] == Real { bits: 0 });
    assert(call_ensures(K::plus, (k, sums[0], rows[0][i]), sums[0int + 1]));
    assert(call_ensures(K::plus, (k, sums[1], rows[1][i]), sums[1int + 1]));
}

// ---------------------------------------------------------------------------------------------
// Ranks

/// What a place among results counts in a fusion: one, divided by one plus the place plus one.
pub proof fn law_rank_counts<K: Kernels>(k: &K, rank: usize, r: Real)
    requires
        gives_rank_share(k, rank, r),
    ensures
        exists|c: Real, a: Real, b: Real|
            call_ensures(K::count, (k, rank), c) && #[trigger] call_ensures(K::plus, (k, Real { bits: 0x3f80_0000 }, c), a)
                && #[trigger] call_ensures(K::plus, (k, a, Real { bits: 0x3f80_0000 }), b) && call_ensures(
                K::quotient,
                (k, Real { bits: 0x3f80_0000 }, b),
                r,
            ),
{
}

// ---------------------------------------------------------------------------------------------
// Sparse vectors

/// Pairs of entries of two sparse vectors that have one index.
pub open spec fn share_index(a: SparseVectorV, b: SparseVectorV, i: int, j: int) -> bool {
    &&& 0 <= i < a.indices.len() && i < a.values.len()
    &&& 0 <= j < b.indices.len() && j < b.values.len()
    &&& a.indices[i] == b.indices[j]
}

/// One pair of entries comes before another.
pub open spec fn pair_before(p: (int, int), q: (int, int)) -> bool {
    p.0 < q.0 || (p.0 == q.0 && p.1 < q.1)
}

/// `pairs` are the pairs of entries with one index whose first entry is among the first `n`, in
/// order, and `factors` are their values.
pub open spec fn pairs_shared(
    a: SparseVectorV,
    b: SparseVectorV,
    n: int,
    pairs: Seq<(int, int)>,
    factors: Seq<(Real, Real)>,
) -> bool {
    &&& factors.len() == pairs.len()
    &&& forall|m: int|
        0 <= m < pairs.len() ==> share_index(a, b, (#[trigger] pairs[m]).0, pairs[m].1) && pairs[m].0 < n && factors[m]
            == (a.values[pairs[m].0], b.values[pairs[m].1])
    &&& forall|m: int, l: int| 0 <= m < l < pairs.len() ==> pair_before(#[trigger] pairs[m], #[trigger] pairs[l])
    &&& forall|i: int, j: int| i < n && #[trigger] share_index(a, b, i, j) ==> pairs.contains((i, j))
}

/// The pairs that one entry of a sparse vector has with the first `n` of another.
proof fn lemma_factors_at(a: SparseVectorV, at: int, b: SparseVectorV, n: nat) -> (pairs: Seq<(int, int)>)
    requires
        0 <= at < a.indices.len(),
        at < a.values.len(),
        n <= entries(b),
    ensures
        factors_at(a.indices[at], a.values[at], b, n).len() == pairs.len(),
        forall|m: int|
            0 <= m < pairs.len() ==> share_index(a, b, (#[trigger] pairs[m]).0, pairs[m].1) && pairs[m].0 == at
                && pairs[m].1 < n && factors_at(a.indices[at], a.values[at], b, n)[m] == (
                a.values[pairs[m].0],
                b.values[pairs[m].1],
            ),
        forall|m: int, l: int| 0 <= m < l < pairs.len() ==> pair_before(#[trigger] pairs[m], #[trigger] pairs[l]),
        forall|j: int| j < n && #[trigger] share_index(a, b, at, j) ==> pairs.contains((at, j)),
    decreases n,
{
    if n == 0 {
        Seq::empty()
    } else {
        let earlier = lemma_factors_at(a, at, b, (n - 1) as nat);
        if b.indices[n - 1] == a.indices[at] {
            let pairs = earlier.push((at, n - 1));
            assert forall|j: int| j < n && #[trigger] share_index(a, b, at, j) implies pairs.contains((at, j)) by {
                if j < n - 1 {
                    let m = choose|m: int| 0 <= m < earlier.len() && earlier[m] == (at, j);
                    assert(pairs[m] == (at, j));
                } else {
                    assert(pairs[earlier.len() as int] == (at, j));
                }
            }
            pairs
        } else {
            earlier
        }
    }
}

proof fn lemma_shared_factors(a: SparseVectorV, b: SparseVectorV, n: nat) -> (pairs: Seq<(int, int)>)
    requires
        n <= entries(a),
    ensures
        pairs_shared(a, b, n as int, pairs, shared_factors(a, b, n)),
    decreases n,
{
    if n == 0 {
        Seq::empty()
    } else {
        let earlier = lemma_shared_factors(a, b, (n - 1) as nat);
        let more = lemma_factors_at(a, n - 1, b, entries(b));
        let pairs = earlier + more;
        let factors = shared_factors(a, b, n);
        let before = shared_factors(a, b, (n - 1) as nat);
        let here = factors_at(a.indices[n - 1], a.values[n - 1], b, entries(b));
        assert forall|m: int| 0 <= m < pairs.len() implies share_index(a, b, (#[trigger] pairs[m]).0, pairs[m].1)
            && pairs[m].0 < n && factors[m] == (a.values[pairs[m].0], b.values[pairs[m].1]) by {
            if m < earlier.len() {
                assert(pairs[m] == earlier[m]);
                assert(factors[m] == before[m]);
            } else {
                assert(pairs[m] == more[m - earlier.len()]);
                assert(factors[m] == here[m - earlier.len()]);
            }
        }
        assert forall|m: int, l: int| 0 <= m < l < pairs.len() implies pair_before(
            #[trigger] pairs[m],
            #[trigger] pairs[l],
        ) by {
            if l < earlier.len() {
                assert(pair_before(earlier[m], earlier[l]));
            } else if m < earlier.len() {
                assert(earlier[m].0 < n - 1);
                assert(more[l - earlier.len()].0 == n - 1);
            } else {
                assert(pair_before(more[m - earlier.len()], more[l - earlier.len()]));
            }
        }
        assert forall|i: int, j: int| i < n && #[trigger] share_index(a, b, i, j) implies pairs.contains((i, j)) by {
            if i < n - 1 {
                let m = choose|m: int| 0 <= m < earlier.len() && earlier[m] == (i, j);
                assert(pairs[m] == (i, j));
            } else {
                assert(more.contains((n - 1, j)));
                let m = choose|m: int| 0 <= m < more.len() && more[m] == (n - 1, j);
                assert(pairs[earlier.len() + m] == (i, j));
            }
        }
        pairs
    }
}

/// The product of two sparse vectors adds up, from zero on, the products of the values of all pairs
/// of entries that have one index, each once, and of no other.
pub proof fn law_sparse_product_counts_shared<K: Kernels>(k: &K, a: SparseVectorV, b: SparseVectorV, r: Real)
    requires
        gives_sparse_dot(k, a, b, r),
    ensures
        exists|pairs: Seq<(int, int)>, factors: Seq<(Real, Real)>, sums: Seq<Real>|
            {
                &&& #[trigger] pairs_shared(a, b, a.indices.len() as int, pairs, factors)
                &&& #[trigger] sums.len() == factors.len() + 1
                &&& sums[0].bits == 0
                &&& forall|m: int|
                    0 <= m < factors.len() ==> adds_product(
                        k,
                        sums[m],
                        factors[m].0,
                        factors[m].1,
                        #[trigger] sums[m + 1],
                    )
                &&& r == sums[factors.len() as int]
            },
{
    let factors = shared_factors(a, b, entries(a));
    let sums = choose|sums: Seq<Real>| #[trigger] factor_sums(k, factors, sums) && r == sums.last();
    let pairs = lemma_shared_factors(a, b, entries(a));
    assert forall|i: int, j: int| i < a.indices.len() && #[trigger] share_index(a, b, i, j) implies pairs.contains((i, j)) by {
        assert(i < entries(a));
    }
    assert(pairs_shared(a, b, a.indices.len() as int, pairs, factors));
    assert forall|m: int| 0 <= m < factors.len() implies adds_product(
        k,
        sums[m],
        factors[m].0,
        factors[m].1,
        #[trigger] sums[m + 1],
    ) by {
        assert(gives_product_added(k, sums[m], factors[m].0, factors[m].1, sums[m + 1]));
    }
    assert(sums.len() == factors.len() + 1);
}

// ---------------------------------------------------------------------------------------------
// What is handed to the kernels

/// Products, distances, similarities and normalized vectors are what the kernels make of the
/// vectors themselves, in the order given.
pub proof fn law_kernels_called<K: Kernels>(k: &K, a: Seq<Real>, b: Seq<Real>, r: Real, v: Seq<Real>)
    ensures
        gives_dot(k, a, b, r) ==> exists|x: &[Real], y: &[Real]|
            x@ == a && y@ == b && #[trigger] call_ensures(K::dot, (k, x, y), r),
        gives_l2(k, a, b, r) ==> exists|x: &[Real], y: &[Real]|
            x@ == a && y@ == b && #[trigger] call_ensures(K::l2_distance, (k, x, y), r),
        gives_cosine(k, a, b, r) ==> exists|x: &[Real], y: &[Real]|
            x@ == a && y@ == b && #[trigger] call_ensures(K::cosine_similarity, (k, x, y), r),
        gives_normalized(k, a, v) ==> exists|x: &[Real], w: Vec<Real>|
            x@ == a && w@ == v && #[trigger] call_ensures(K::normalized, (k, x), w),
        gives_distance(k, a, b, r) ==> exists|d: Real| #[trigger]
            gives_dot(k, a, b, d) && call_ensures(K::minus, (k, Real { bits: 0x3f80_0000 }, d), r),
{
    if gives_distance(k, a, b, r) {
        let d = choose|d: Real| gives_dot(k, a, b, d) && #[trigger] call_ensures(K::minus, (k, one(), d), r);
        assert(gives_dot(k, a, b, d) && call_ensures(K::minus, (k, Real { bits: 0x3f80_0000 }, d), r));
    }
}

/// A text search hands the texts of the index, the query and the limit to the kernels, and returns
/// what they find.
pub proof fn law_text_search_called<K: Kernels>(
    k: &K,
    documents: Seq<(Seq<char>, Seq<char>)>,
    query: Seq<char>,
    limit: usize,
    r: Seq<(Seq<char>, Real)>,
)
    requires
        gives_text_search(k, documents, query, limit, r),
    ensures
        exists|d: &Vec<(String, String)>, q: &str, m: Vec<(String, Real)>| #[trigger]
            call_ensures(K::text_search, (k, d, q, limit), m) && d@.len() == documents.len() && (forall|i: int|
                0 <= i < d@.len() ==> (#[trigger] d@[i]).0@ == documents[i].0 && d@[i].1@ == documents[i].1) && q@
                == query && m@.len() == r.len() && (forall|i: int|
                0 <= i < m@.len() ==> (#[trigger] m@[i]).0@ == r[i].0 && m@[i].1 == r[i].1),
{
    let (d, q, m) = choose|d: &Vec<(String, String)>, q: &str, m: Vec<(String, Real)>|
        documents_of(d@) == documents && q@ == query && matches_of(m@) == r && #[trigger] call_ensures(
            K::text_search,
            (k, d, q, limit),
            m,
        );
    assert forall|i: int| 0 <= i < d@.len() implies (#[trigger] d@[i]).0@ == documents[i].0 && d@[i].1@
        == documents[i].1 by {
        assert(documents_of(d@)[i] == (d@[i].0@, d@[i].1@));
    }
    assert forall|i: int| 0 <= i < m@.len() implies (#[trigger] m@[i]).0@ == r[i].0 && m@[i].1 == r[i].1 by {
        assert(matches_of(m@)[i] == (m@[i].0@, m@[i].1));
    }
}

} // verus!
