//! What holds of the product whatever kernel computed it.
use vstd::prelude::*;
use crate::matrix::{entry, is_matrix, is_product, lemma_min_prefix_bounds, lemma_prefix_tail, lemma_row_major_bound, lemma_row_major_split, min_plus, min_prefix, term};
use crate::tools::{INF, wadd};

verus! {

/// Each cell of the product is the minimum over every `k` of
/// `D[i, k] + D[k, j]`: no smaller than any of them, and equal to one.
pub proof fn lemma_product_is_minimum(r: Seq<u32>, d: Seq<u32>, n: int, i: int, j: int)
    requires
        is_matrix(d, n),
        is_product(r, d, n),
        0 <= i < n,
        0 <= j < n,
    ensures
        forall|k: int| 0 <= k < n ==> r[i * n + j] <= #[trigger] wadd(d[i * n + k], d[k * n + j]),
        exists|k: int| 0 <= k < n && r[i * n + j] == #[trigger] wadd(d[i * n + k], d[k * n + j]),
{
    assert(r[i * n + j] == min_plus(d, n, i, j));
    lemma_min_prefix_bounds(d, n, i, j, n);
    assert forall|k: int| 0 <= k < n implies r[i * n + j] <= #[trigger] wadd(d[i * n + k], d[k * n + j]) by {
        assert(term(d, n, i, j, k) == wadd(d[i * n + k], d[k * n + j]));
    }
    if r[i * n + j] == INF {
        assert(term(d, n, i, j, 0) == wadd(d[i * n + 0], d[0 * n + j]));
        assert(r[i * n + j] <= wadd(d[i * n + 0], d[0 * n + j]));
    } else {
        let k = choose|k: int| 0 <= k < n && min_prefix(d, n, i, j, n) == #[trigger] term(d, n, i, j, k);
        assert(term(d, n, i, j, k) == wadd(d[i * n + k], d[k * n + j]));
    }
}

/// Where every diagonal weight is zero, a path of two steps is never worse
/// than the direct one: `R[i, j] <= D[i, j]`.
pub proof fn lemma_reflexive_tightness(r: Seq<u32>, d: Seq<u32>, n: int)
    requires
        is_matrix(d, n),
        is_product(r, d, n),
        forall|i: int| 0 <= i < n ==> #[trigger] d[i * n + i] == 0,
    ensures
        forall|i: int, j: int| 0 <= i < n && 0 <= j < n ==> #[trigger] r[i * n + j] <= d[i * n + j],
{
    assert forall|i: int, j: int| 0 <= i < n && 0 <= j < n implies #[trigger] r[i * n + j] <= d[i * n + j] by {
        lemma_min_prefix_bounds(d, n, i, j, n);
        assert(d[i * n + i] == 0);
        assert(term(d, n, i, j, i) == d[i * n + j]);
        assert(r[i * n + j] == min_plus(d, n, i, j));
    }
}

/// The product is one matrix: any two results of any kernels on the same
/// input are equal, whatever order each reduced in.
pub proof fn lemma_products_agree(r1: Seq<u32>, r2: Seq<u32>, d: Seq<u32>, n: int)
    requires
        is_matrix(d, n),
        is_product(r1, d, n),
        is_product(r2, d, n),
    ensures
        r1 == r2,
{
    assert forall|p: int| 0 <= p < r1.len() implies r1[p] == r2[p] by {
        lemma_row_major_split(p, n, n);
        assert(r1[(p / n) * n + p % n] == min_plus(d, n, p / n, p % n));
        assert(r2[(p / n) * n + p % n] == min_plus(d, n, p / n, p % n));
    }
    assert(r1 =~= r2);
}

/// `d2` is the `n2 x n2` matrix that holds `d` in its leading `n x n` block
/// and `INF` everywhere else.
pub open spec fn is_infinite_extension(d2: Seq<u32>, n2: int, d: Seq<u32>, n: int) -> bool {
    &&& is_matrix(d2, n2)
    &&& is_matrix(d, n)
    &&& n <= n2
    &&& forall|i: int, j: int|
        0 <= i < n2 && 0 <= j < n2 ==> #[trigger] d2[i * n2 + j] == if i < n && j < n {
            d[i * n + j]
        } else {
            INF
        }
}

proof fn lemma_extension_prefix(d2: Seq<u32>, n2: int, d: Seq<u32>, n: int, i: int, j: int, m: int)
    requires
        is_infinite_extension(d2, n2, d, n),
        0 <= i < n,
        0 <= j < n,
        0 <= m <= n2,
    ensures
        min_prefix(d2, n2, i, j, m) == min_prefix(d, n, i, j, m),
    decreases m,
{
    if m > 0 {
        lemma_extension_prefix(d2, n2, d, n, i, j, m - 1);
        let k = m - 1;
        assert(d2[i * n2 + k] == entry(d, n, i, k));
        assert(d2[k * n2 + j] == entry(d, n, k, j));
        assert(term(d2, n2, i, j, k) == term(d, n, i, j, k));
    }
}

/// Growing the matrix with `INF` weights leaves the leading block of the
/// product as it was: the padding never reaches a cell inside the matrix.
pub proof fn lemma_padding_invariance(r2: Seq<u32>, d2: Seq<u32>, n2: int, r: Seq<u32>, d: Seq<u32>, n: int)
    requires
        is_infinite_extension(d2, n2, d, n),
        is_product(r2, d2, n2),
        is_product(r, d, n),
    ensures
        forall|i: int, j: int| 0 <= i < n && 0 <= j < n ==> #[trigger] r2[i * n2 + j] == r[i * n + j],
{
    assert forall|i: int, j: int| 0 <= i < n && 0 <= j < n implies #[trigger] r2[i * n2 + j] == r[i * n + j] by {
        lemma_extension_prefix(d2, n2, d, n, i, j, n2);
        lemma_prefix_tail(d, n, i, j, n2);
        assert(r2[i * n2 + j] == min_plus(d2, n2, i, j));
        assert(r[i * n + j] == min_plus(d, n, i, j));
    }
}

proof fn lemma_prefix_monotone(d1: Seq<u32>, d2: Seq<u32>, n: int, i: int, j: int, m: int)
    requires
        is_matrix(d1, n),
        is_matrix(d2, n),
        forall|p: int| 0 <= p < n * n ==> #[trigger] d1[p] <= d2[p],
    ensures
        min_prefix(d1, n, i, j, m) <= min_prefix(d2, n, i, j, m),
    decreases m,
{
    if m > 0 {
        lemma_prefix_monotone(d1, d2, n, i, j, m - 1);
        let k = m - 1;
        if 0 <= i < n && 0 <= k < n {
            lemma_row_major_bound(i, k, n, n);
        }
        if 0 <= k < n && 0 <= j < n {
            lemma_row_major_bound(k, j, n, n);
        }
        assert(entry(d1, n, i, k) <= entry(d2, n, i, k));
        assert(entry(d1, n, k, j) <= entry(d2, n, k, j));
    }
}

/// Raising weights never lowers the product: `D <= D'` entry by entry gives
/// `R <= R'` entry by entry.
pub proof fn lemma_monotonicity(r1: Seq<u32>, d1: Seq<u32>, r2: Seq<u32>, d2: Seq<u32>, n: int)
    requires
        is_matrix(d1, n),
        is_matrix(d2, n),
        forall|p: int| 0 <= p < n * n ==> #[trigger] d1[p] <= d2[p],
        is_product(r1, d1, n),
        is_product(r2, d2, n),
    ensures
        forall|p: int| 0 <= p < n * n ==> #[trigger] r1[p] <= r2[p],
{
    assert forall|p: int| 0 <= p < n * n implies #[trigger] r1[p] <= r2[p] by {
        lemma_row_major_split(p, n, n);
        let i = p / n;
        let j = p % n;
        lemma_prefix_monotone(d1, d2, n, i, j, n);
        assert(r1[i * n + j] == min_plus(d1, n, i, j));
        assert(r2[i * n + j] == min_plus(d2, n, i, j));
    }
}

} // verus!
