//! How multivectors and sparse vectors are compared.

use vstd::prelude::*;
use crate::config::Distance;
use crate::ieee::Real;
use crate::kernels::{gives_cosine, gives_dot, gives_l2, gives_product_added, zero, Kernels};
use crate::point::{rows_of, MultiVector, SparseVector, SparseVectorV};

verus! {

// ---------------------------------------------------------------------------------------------
// Multivectors

/// The bits of minus infinity.
pub const LOWEST_BITS: u32 = 0xff80_0000;

/// Minus infinity.
pub open spec fn lowest() -> Real {
    Real { bits: LOWEST_BITS }
}

/// How a vector of a query scores one of a document: higher is better, whatever the distance.
pub open spec fn gives_row_score<K: Kernels>(k: &K, distance: Distance, q: Seq<Real>, d: Seq<Real>, r: Real) -> bool {
    match distance {
        Distance::Cosine => gives_cosine(k, q, d, r),
        Distance::Euclidean => exists|x: Real| #[trigger] gives_l2(k, q, d, x) && r == x.opposite(),
        Distance::Dot => gives_dot(k, q, d, r),
    }
}

/// The highest of several scores. NaN does not count; without any other it is minus infinity.
pub open spec fn highest(scores: Seq<Real>) -> Real
    decreases scores.len(),
{
    if scores.len() == 0 {
        lowest()
    } else {
        let earlier = highest(scores.drop_last());
        if earlier.less(scores.last()) {
            scores.last()
        } else {
            earlier
        }
    }
}

/// `scores` are those of one vector of a query and each vector of a document.
pub open spec fn scores_rows<K: Kernels>(
    k: &K,
    distance: Distance,
    q: Seq<Real>,
    document: Seq<Seq<Real>>,
    scores: Seq<Real>,
) -> bool {
    scores.len() == document.len() && forall|j: int|
        0 <= j < document.len() ==> gives_row_score(k, distance, q, document[j], #[trigger] scores[j])
}

/// `r` is what the best similarity of one vector of a query to a vector of a document came to.
pub open spec fn gives_best_row<K: Kernels>(
    k: &K,
    distance: Distance,
    q: Seq<Real>,
    document: Seq<Seq<Real>>,
    r: Real,
) -> bool {
    exists|scores: Seq<Real>| #[trigger] scores_rows(k, distance, q, document, scores) && r == highest(scores)
}

/// `r` is what adding the best similarity of one vector of a query to a sum came to.
pub open spec fn adds_best_row<K: Kernels>(
    k: &K,
    distance: Distance,
    q: Seq<Real>,
    document: Seq<Seq<Real>>,
    sum: Real,
    r: Real,
) -> bool {
    exists|best: Real|
        gives_best_row(k, distance, q, document, best) && #[trigger] call_ensures(K::plus, (k, sum, best), r)
}

/// `sums` are the running sums of the best similarities of the vectors of a query, from zero.
pub open spec fn best_sums<K: Kernels>(
    k: &K,
    distance: Distance,
    query: Seq<Seq<Real>>,
    document: Seq<Seq<Real>>,
    sums: Seq<Real>,
) -> bool {
    &&& sums.len() == query.len() + 1
    &&& sums[0] == zero()
    &&& forall|i: int|
        0 <= i < query.len() ==> adds_best_row(k, distance, query[i], document, sums[i], #[trigger] sums[i + 1])
}

/// `r` is what the best-match score of two multivectors came to: for each vector of the query the
/// best similarity to a vector of the document, summed up.
pub open spec fn gives_max_sim<K: Kernels>(
    k: &K,
    distance: Distance,
    query: Seq<Seq<Real>>,
    document: Seq<Seq<Real>>,
    r: Real,
) -> bool {
    exists|sums: Seq<Real>| #[trigger] best_sums(k, distance, query, document, sums) && r == sums.last()
}

fn row_score<K: Kernels>(k: &K, distance: Distance, q: &[Real], d: &[Real]) -> (r: Real)
    ensures
        gives_row_score(k, distance, q@, d@, r),
{
    match distance {
        Distance::Cosine => k.cosine_similarity(q, d),
        Distance::Euclidean => {
            let x = k.l2_distance(q, d);
            assert(gives_l2(k, q@, d@, x));
            x.negated()
        },
        Distance::Dot => k.dot(q, d),
    }
}

fn best_row<K: Kernels>(k: &K, distance: Distance, q: &Vec<Real>, document: &Vec<Vec<Real>>) -> (r: Real)
    ensures
        gives_best_row(k, distance, q@, rows_of(document@), r),
{
    let ghost rows = rows_of(document@);
    let ghost mut scores: Seq<Real> = Seq::empty();
    let mut best = Real { bits: LOWEST_BITS };
    let mut j: usize = 0;
    while j < document.len()
        invariant
            j <= document@.len(),
            rows == rows_of(document@),
            scores.len() == j,
            best == highest(scores),
            forall|m: int| 0 <= m < j ==> gives_row_score(k, distance, q@, rows[m], #[trigger] scores[m]),
        decreases document@.len() - j,
    {
        let ghost scores0 = scores;
        let s = row_score(k, distance, q.as_slice(), document[j].as_slice());
        proof {
            scores = scores.push(s);
            assert(scores.drop_last() =~= scores0);
            assert(rows[j as int] == document@[j as int]@);
        }
        if best.lt(s) {
            best = s;
        }
        j += 1;
    }
    assert(scores_rows(k, distance, q@, rows, scores));
    best
}

/// For each vector of the query the best similarity to a vector of the document, summed up
pub fn max_sim<K: Kernels>(k: &K, distance: Distance, query: &MultiVector, document: &MultiVector) -> (r: Real)
    ensures
        gives_max_sim(k, distance, query@, document@, r),
{
    let queries = query.vectors();
    let rows = document.vectors();
    let mut sum = Real { bits: 0 };
    let ghost mut sums: Seq<Real> = seq![zero()];
    let mut i: usize = 0;
    while i < queries.len()
        invariant
            i <= queries@.len(),
            rows_of(queries@) == query@,
            rows_of(rows@) == document@,
            sums.len() == i + 1,
            sums[0] == zero(),
            sum == sums[i as int],
            forall|m: int|
                0 <= m < i ==> adds_best_row(k, distance, query@[m], document@, sums[m], #[trigger] sums[m + 1]),
        decreases queries@.len() - i,
    {
        let ghost sums0 = sums;
        let best = best_row(k, distance, &queries[i], rows);
        let next = k.plus(sum, best);
        proof {
            assert(query@[i as int] == queries@[i as int]@);
            assert(adds_best_row(k, distance, query@[i as int], document@, sum, next));
            sums = sums.push(next);
            assert forall|m: int| 0 <= m < i + 1 implies adds_best_row(
                k,
                distance,
                query@[m],
                document@,
                sums[m],
                #[trigger] sums[m + 1],
            ) by {
                if m < i {
                    assert(sums[m] == sums0[m] && sums[m + 1] == sums0[m + 1]);
                }
            }
        }
        sum = next;
        i += 1;
    }
    assert(best_sums(k, distance, query@, document@, sums));
    sum
}

/// The highest score is one of them, or minus infinity, and none is higher.
pub proof fn law_highest(scores: Seq<Real>, i: int)
    requires
        0 <= i < scores.len(),
    ensures
        !highest(scores).nan(),
        highest(scores) == lowest() || scores.contains(highest(scores)),
        !highest(scores).less(scores[i]),
    decreases scores.len(),
{
    reveal_with_fuel(highest, 2);
    let rest = scores.drop_last();
    if rest.len() > 0 {
        law_highest(rest, if i < rest.len() { i } else { 0 });
        if rest.contains(highest(rest)) {
            let m = choose|m: int| 0 <= m < rest.len() && rest[m] == highest(rest);
            assert(scores[m] == highest(rest));
        }
    }
    assert(scores[scores.len() - 1] == scores.last());
    if i < rest.len() {
        assert(rest[i] == scores[i]);
    }
}

// ---------------------------------------------------------------------------------------------
// Sparse vectors

/// How many entries a sparse vector has: as many as have both an index and a value.
pub open spec fn entries(v: SparseVectorV) -> nat {
    if v.indices.len() <= v.values.len() {
        v.indices.len()
    } else {
        v.values.len()
    }
}

/// The factors that `x`, which stands at an index, makes with the first `n` entries of `b`.
pub open spec fn factors_at(index: u32, x: Real, b: SparseVectorV, n: nat) -> Seq<(Real, Real)>
    decreases n,
{
    if n == 0 {
        Seq::empty()
    } else {
        let earlier = factors_at(index, x, b, (n - 1) as nat);
        if b.indices[n - 1] == index {
            earlier.push((x, b.values[n - 1]))
        } else {
            earlier
        }
    }
}

/// The factors at the indices that the first `n` entries of `a` share with `b`.
pub open spec fn shared_factors(a: SparseVectorV, b: SparseVectorV, n: nat) -> Seq<(Real, Real)>
    decreases n,
{
    if n == 0 {
        Seq::empty()
    } else {
        shared_factors(a, b, (n - 1) as nat) + factors_at(a.indices[n - 1], a.values[n - 1], b, entries(b))
    }
}

/// `sums` are the running sums of products, from zero.
pub open spec fn factor_sums<K: Kernels>(k: &K, factors: Seq<(Real, Real)>, sums: Seq<Real>) -> bool {
    &&& sums.len() == factors.len() + 1
    &&& sums[0] == zero()
    &&& forall|i: int|
        0 <= i < factors.len() ==> gives_product_added(k, sums[i], factors[i].0, factors[i].1, #[trigger] sums[i + 1])
}

/// `r` is what the dot product of two sparse vectors came to: the products at the indices that
/// both have, added up.
pub open spec fn gives_sparse_dot<K: Kernels>(k: &K, a: SparseVectorV, b: SparseVectorV, r: Real) -> bool {
    exists|sums: Seq<Real>| #[trigger]
        factor_sums(k, shared_factors(a, b, entries(a)), sums) && r == sums.last()
}

proof fn lemma_sums_push<K: Kernels>(k: &K, factors: Seq<(Real, Real)>, sums: Seq<Real>, f: (Real, Real), next: Real)
    requires
        factor_sums(k, factors, sums),
        gives_product_added(k, sums.last(), f.0, f.1, next),
    ensures
        factor_sums(k, factors.push(f), sums.push(next)),
{
    let more = factors.push(f);
    let sums2 = sums.push(next);
    assert forall|i: int| 0 <= i < more.len() implies gives_product_added(
        k,
        sums2[i],
        more[i].0,
        more[i].1,
        #[trigger] sums2[i + 1],
    ) by {
        if i < factors.len() {
            assert(sums2[i] == sums[i] && sums2[i + 1] == sums[i + 1]);
        }
    }
}

fn entry_count(v: &SparseVector) -> (r: usize)
    ensures
        r == entries(v@),
{
    if v.indices.len() <= v.values.len() {
        v.indices.len()
    } else {
        v.values.len()
    }
}

/// The products at the indices that two sparse vectors share, added up
pub fn sparse_dot<K: Kernels>(k: &K, a: &SparseVector, b: &SparseVector) -> (r: Real)
    ensures
        gives_sparse_dot(k, a@, b@, r),
{
    let n: usize = entry_count(a);
    let m: usize = entry_count(b);
    let mut sum = Real { bits: 0 };
    let ghost mut factors: Seq<(Real, Real)> = Seq::empty();
    let ghost mut sums: Seq<Real> = seq![zero()];
    let mut i: usize = 0;
    while i < n
        invariant
            i <= n,
            n == entries(a@),
            m == entries(b@),
            factors == shared_factors(a@, b@, i as nat),
            factor_sums(k, factors, sums),
            sum == sums.last(),
        decreases n - i,
    {
        let index: u32 = a.indices[i];
        let x = a.values[i];
        let ghost before = factors;
        let mut j: usize = 0;
        assert(factors =~= before + factors_at(index, x, b@, 0));
        while j < m
            invariant
                j <= m,
                m == entries(b@),
                factors == before + factors_at(index, x, b@, j as nat),
                factor_sums(k, factors, sums),
                sum == sums.last(),
            decreases m - j,
        {
            if b.indices[j] == index {
                let y = b.values[j];
                let product = k.times(x, y);
                let next = k.plus(sum, product);
                proof {
                    assert(gives_product_added(k, sum, x, y, next));
                    lemma_sums_push(k, factors, sums, (x, y), next);
                    factors = factors.push((x, y));
                    sums = sums.push(next);
                    assert(factors =~= before + factors_at(index, x, b@, (j + 1) as nat));
                }
                sum = next;
            }
            j += 1;
        }
        i += 1;
    }
    sum
}

proof fn lemma_no_factors_at(index: u32, x: Real, b: SparseVectorV, n: nat)
    requires
        n <= b.indices.len(),
        forall|j: int| 0 <= j < b.indices.len() ==> #[trigger] b.indices[j] != index,
    ensures
        factors_at(index, x, b, n).len() == 0,
    decreases n,
{
    if n > 0 {
        lemma_no_factors_at(index, x, b, (n - 1) as nat);
    }
}

proof fn lemma_no_shared_factors(a: SparseVectorV, b: SparseVectorV, n: nat)
    requires
        n <= a.indices.len(),
        forall|i: int, j: int|
            0 <= i < a.indices.len() && 0 <= j < b.indices.len() ==> #[trigger] a.indices[i] != #[trigger] b.indices[j],
    ensures
        shared_factors(a, b, n).len() == 0,
    decreases n,
{
    if n > 0 {
        lemma_no_shared_factors(a, b, (n - 1) as nat);
        lemma_no_factors_at(a.indices[n - 1], a.values[n - 1], b, entries(b));
    }
}

/// Sparse vectors that share no index have the dot product zero.
pub proof fn law_unshared_dot_is_zero<K: Kernels>(k: &K, a: SparseVectorV, b: SparseVectorV, r: Real)
    requires
        gives_sparse_dot(k, a, b, r),
        forall|i: int, j: int|
            0 <= i < a.indices.len() && 0 <= j < b.indices.len() ==> #[trigger] a.indices[i] != #[trigger] b.indices[j],
    ensures
        r == zero(),
{
    lemma_no_shared_factors(a, b, entries(a));
}

} // verus!
