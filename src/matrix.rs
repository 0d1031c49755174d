//! The mathematical model: an `n x n` row-major weight matrix, the paths of
//! length two through it, and their minimum in the orders the kernels use.
use vstd::prelude::*;
use vstd::arithmetic::div_mod::{lemma_fundamental_div_mod, lemma_fundamental_div_mod_converse};
use crate::tools::{INF, wadd, wmin};

verus! {

/// Entry `(i, j)` of the row-major `n x n` matrix `d`; `INF` off the matrix,
/// which is what every packed buffer holds in its padding.
pub open spec fn entry(d: Seq<u32>, n: int, i: int, j: int) -> u32 {
    if 0 <= i < n && 0 <= j < n {
        d[i * n + j]
    } else {
        INF
    }
}

/// The weight of the path `i -> k -> j`.
pub open spec fn term(d: Seq<u32>, n: int, i: int, j: int, k: int) -> u32 {
    wadd(entry(d, n, i, k), entry(d, n, k, j))
}

/// The minimum of `term(.., k)` over `k` in `[0, m)`, folded in ascending `k`.
pub open spec fn min_prefix(d: Seq<u32>, n: int, i: int, j: int, m: int) -> u32
    decreases m,
{
    if m <= 0 {
        INF
    } else {
        wmin(min_prefix(d, n, i, j, m - 1), term(d, n, i, j, m - 1))
    }
}

/// `R[i, j]`: the minimum over every `k` of `D[i, k] + D[k, j]`.
pub open spec fn min_plus(d: Seq<u32>, n: int, i: int, j: int) -> u32 {
    min_prefix(d, n, i, j, n)
}

/// The minimum of `term(.., t * w + b)` over `t` in `[0, m)`: what one lane
/// of a `w`-lane accumulator holds after `m` steps.
pub open spec fn strided_prefix(d: Seq<u32>, n: int, i: int, j: int, b: int, w: int, m: int) -> u32
    decreases m,
{
    if m <= 0 {
        INF
    } else {
        wmin(strided_prefix(d, n, i, j, b, w, m - 1), term(d, n, i, j, (m - 1) * w + b))
    }
}

/// `d` holds an `n x n` matrix.
pub open spec fn is_matrix(d: Seq<u32>, n: int) -> bool {
    0 <= n && d.len() == n * n
}

/// `r` is the min-plus product of `d` with itself.
pub open spec fn is_product(r: Seq<u32>, d: Seq<u32>, n: int) -> bool {
    &&& r.len() == n * n
    &&& forall|i: int, j: int|
        0 <= i < n && 0 <= j < n ==> r[i * n + j] == #[trigger] min_plus(d, n, i, j)
}

/// Row-major position `i * n + j` decomposes back into `i` and `j`.
pub proof fn lemma_row_major(i: int, j: int, n: int)
    requires
        0 <= i,
        0 <= j < n,
    ensures
        0 <= i * n + j,
        (i * n + j) / n == i,
        (i * n + j) % n == j,
{
    assert(0 <= i * n) by (nonlinear_arith)
        requires
            0 <= i,
            0 < n,
    ;
    lemma_fundamental_div_mod_converse(i * n + j, n, i, j);
}

/// Row-major positions of a matrix with `m` rows stay below `m * n`.
pub proof fn lemma_row_major_bound(i: int, j: int, n: int, m: int)
    requires
        0 <= i < m,
        0 <= j < n,
    ensures
        0 <= i * n + j < m * n,
{
    assert(0 <= i * n + j < m * n) by (nonlinear_arith)
        requires
            0 <= i < m,
            0 <= j < n,
    ;
}

/// Every position below `m * n` is `i * n + j` for a row `i < m` and a column `j < n`.
pub proof fn lemma_row_major_split(p: int, n: int, m: int)
    requires
        0 <= p < m * n,
        0 <= n,
    ensures
        0 < n,
        0 <= p / n < m,
        0 <= p % n < n,
        p == (p / n) * n + p % n,
{
    assert(0 < n) by (nonlinear_arith)
        requires
            0 <= p < m * n,
            0 <= n,
    ;
    lemma_fundamental_div_mod(p, n);
    assert(p / n * n == n * (p / n)) by (nonlinear_arith);
    assert(0 <= p / n < m) by (nonlinear_arith)
        requires
            0 <= p < m * n,
            0 < n,
            p == n * (p / n) + p % n,
            0 <= p % n < n,
    ;
}

/// The fold in ascending order is a lower bound of every term it saw and,
/// unless it is `INF`, equal to one of them.
pub proof fn lemma_min_prefix_bounds(d: Seq<u32>, n: int, i: int, j: int, m: int)
    requires
        0 <= m,
    ensures
        forall|k: int| 0 <= k < m ==> min_prefix(d, n, i, j, m) <= #[trigger] term(d, n, i, j, k),
        min_prefix(d, n, i, j, m) == INF || exists|k: int|
            0 <= k < m && min_prefix(d, n, i, j, m) == #[trigger] term(d, n, i, j, k),
    decreases m,
{
    if m > 0 {
        lemma_min_prefix_bounds(d, n, i, j, m - 1);
        let prev = min_prefix(d, n, i, j, m - 1);
        if prev != INF && prev <= term(d, n, i, j, m - 1) {
            let k = choose|k: int| 0 <= k < m - 1 && prev == #[trigger] term(d, n, i, j, k);
            assert(0 <= k < m && min_prefix(d, n, i, j, m) == term(d, n, i, j, k));
        }
    }
}

/// The strided fold is a lower bound of every term it saw and, unless it is
/// `INF`, equal to one of them.
pub proof fn lemma_strided_bounds(d: Seq<u32>, n: int, i: int, j: int, b: int, w: int, m: int)
    requires
        0 <= m,
    ensures
        forall|t: int|
            0 <= t < m ==> strided_prefix(d, n, i, j, b, w, m) <= #[trigger] term(d, n, i, j, t * w + b),
        strided_prefix(d, n, i, j, b, w, m) == INF || exists|t: int|
            0 <= t < m && strided_prefix(d, n, i, j, b, w, m) == #[trigger] term(d, n, i, j, t * w + b),
    decreases m,
{
    if m > 0 {
        lemma_strided_bounds(d, n, i, j, b, w, m - 1);
        let prev = strided_prefix(d, n, i, j, b, w, m - 1);
        if prev != INF && prev <= term(d, n, i, j, (m - 1) * w + b) {
            let t = choose|t: int| 0 <= t < m - 1 && prev == #[trigger] term(d, n, i, j, t * w + b);
            assert(0 <= t < m && strided_prefix(d, n, i, j, b, w, m) == term(d, n, i, j, t * w + b));
        }
    }
}

/// A value that bounds every term below `m` and is `INF` or one of them is
/// the fold: the minimum does not depend on the order of reduction.
pub proof fn lemma_is_min(x: u32, d: Seq<u32>, n: int, i: int, j: int, m: int)
    requires
        0 <= m,
        forall|k: int| 0 <= k < m ==> x <= #[trigger] term(d, n, i, j, k),
        x == INF || exists|k: int| 0 <= k < m && x == #[trigger] term(d, n, i, j, k),
    ensures
        x == min_prefix(d, n, i, j, m),
{
    lemma_min_prefix_bounds(d, n, i, j, m);
    let y = min_prefix(d, n, i, j, m);
    if y != INF {
        let k = choose|k: int| 0 <= k < m && y == #[trigger] term(d, n, i, j, k);
        assert(x <= y);
    }
    if x != INF {
        let k = choose|k: int| 0 <= k < m && x == #[trigger] term(d, n, i, j, k);
        assert(y <= x);
    }
}

/// Terms past the matrix are `INF`, so folding further changes nothing.
pub proof fn lemma_prefix_tail(d: Seq<u32>, n: int, i: int, j: int, m: int)
    requires
        0 <= n <= m,
    ensures
        min_prefix(d, n, i, j, m) == min_prefix(d, n, i, j, n),
    decreases m,
{
    if m > n {
        lemma_prefix_tail(d, n, i, j, m - 1);
    }
}

/// The minimum over the lanes of a `w`-lane accumulator that ran over
/// `m * w >= n` positions is `R[i, j]`.
pub proof fn lemma_lanes_min(h: u32, d: Seq<u32>, n: int, i: int, j: int, w: int, m: int)
    requires
        0 <= n <= m * w,
        0 < w,
        0 <= m,
        forall|b: int| 0 <= b < w ==> h <= #[trigger] strided_prefix(d, n, i, j, b, w, m),
        exists|b: int| 0 <= b < w && h == #[trigger] strided_prefix(d, n, i, j, b, w, m),
    ensures
        h == min_plus(d, n, i, j),
{
    assert forall|k: int| 0 <= k < m * w implies h <= #[trigger] term(d, n, i, j, k) by {
        lemma_row_major_split(k, w, m);
        lemma_strided_bounds(d, n, i, j, k % w, w, m);
        assert(h <= strided_prefix(d, n, i, j, k % w, w, m));
        assert(strided_prefix(d, n, i, j, k % w, w, m) <= term(d, n, i, j, (k / w) * w + k % w));
    }
    let b = choose|b: int| 0 <= b < w && h == #[trigger] strided_prefix(d, n, i, j, b, w, m);
    lemma_strided_bounds(d, n, i, j, b, w, m);
    if h != INF {
        let t = choose|t: int| 0 <= t < m && h == #[trigger] term(d, n, i, j, t * w + b);
        lemma_row_major_bound(t, b, w, m);
        assert(0 <= t * w + b < m * w && h == term(d, n, i, j, t * w + b));
    }
    lemma_is_min(h, d, n, i, j, m * w);
    lemma_prefix_tail(d, n, i, j, m * w);
}

/// Every position of `r` below `n * n` for which `done` holds of its row and
/// column already carries the product.
pub open spec fn filled(r: Seq<u32>, d: Seq<u32>, n: int, done: spec_fn(int, int) -> bool) -> bool {
    forall|p: int|
        0 <= p < n * n && #[trigger] done(p / n, p % n) ==> r[p] == min_plus(d, n, p / n, p % n)
}

/// A buffer of `n * n` positions that all carry the product is the product.
pub proof fn lemma_filled_product(r: Seq<u32>, d: Seq<u32>, n: int, done: spec_fn(int, int) -> bool)
    requires
        0 <= n,
        r.len() == n * n,
        filled(r, d, n, done),
        forall|i: int, j: int| 0 <= i < n && 0 <= j < n ==> #[trigger] done(i, j),
    ensures
        is_product(r, d, n),
{
    assert forall|i: int, j: int| 0 <= i < n && 0 <= j < n implies r[i * n + j] == #[trigger] min_plus(
        d,
        n,
        i,
        j,
    ) by {
        lemma_row_major(i, j, n);
        lemma_row_major_bound(i, j, n, n);
        assert(done((i * n + j) / n, (i * n + j) % n));
    }
}

/// Nothing is claimed of a buffer where no row has started.
pub proof fn lemma_filled_none(r: Seq<u32>, d: Seq<u32>, n: int)
    requires
        0 <= n,
    ensures
        filled(r, d, n, |a: int, b: int| a < 0),
{
    assert forall|p: int| 0 <= p < n * n implies #[trigger] (p / n) >= 0 by {
        lemma_row_major_split(p, n, n);
    }
}

/// What holds on the positions of `done` holds on those of a smaller `less`.
pub proof fn lemma_filled_weaken(
    r: Seq<u32>,
    d: Seq<u32>,
    n: int,
    done: spec_fn(int, int) -> bool,
    less: spec_fn(int, int) -> bool,
)
    requires
        0 <= n,
        filled(r, d, n, done),
        forall|a: int, b: int| 0 <= a < n && 0 <= b < n && #[trigger] less(a, b) ==> done(a, b),
    ensures
        filled(r, d, n, less),
{
    assert forall|p: int| 0 <= p < n * n && #[trigger] less(p / n, p % n) implies r[p] == min_plus(
        d,
        n,
        p / n,
        p % n,
    ) by {
        lemma_row_major_split(p, n, n);
    }
}

/// Writing the product at `(i, j)` extends the positions that carry it by `(i, j)`.
pub proof fn lemma_filled_set(
    r: Seq<u32>,
    d: Seq<u32>,
    n: int,
    done: spec_fn(int, int) -> bool,
    more: spec_fn(int, int) -> bool,
    i: int,
    j: int,
    v: u32,
)
    requires
        0 <= i < n,
        0 <= j < n,
        r.len() == n * n,
        filled(r, d, n, done),
        v == min_plus(d, n, i, j),
        forall|a: int, b: int|
            0 <= a < n && 0 <= b < n && #[trigger] more(a, b) ==> done(a, b) || (a == i && b == j),
    ensures
        filled(r.update(i * n + j, v), d, n, more),
{
    lemma_row_major(i, j, n);
    lemma_row_major_bound(i, j, n, n);
    assert forall|p: int| 0 <= p < n * n && #[trigger] more(p / n, p % n) implies r.update(i * n + j, v)[p]
        == min_plus(d, n, p / n, p % n) by {
        lemma_row_major_split(p, n, n);
    }
}

/// A dimension whose square fits in a `usize` leaves room above it.
pub proof fn lemma_dim_fits(n: int)
    requires
        0 <= n,
        n * n <= usize::MAX,
    ensures
        n + 1024 <= usize::MAX,
        n <= 0xFFFF_FFFF,
{
    if n > 0xFFFF_FFFF {
        assert(n * n >= 0x1_0000_0000 * 0x1_0000_0000) by (nonlinear_arith)
            requires
                n >= 0x1_0000_0000,
        ;
    }
    if n >= 64 {
        assert(n * n >= 64 * n) by (nonlinear_arith)
            requires
                n >= 64,
        ;
    }
}

/// `i0 <= a < i0 + 8` and `j0 <= b < j0 + 8`: cell `(a, b)` lies in the
/// 8 x 8 tile whose corner is `(i0, j0)`.
pub open spec fn in_tile(a: int, b: int, i0: int, j0: int) -> bool {
    in_block(a, b, i0, j0, 8)
}

/// `i0 <= a < i0 + h` and `j0 <= b < j0 + h`: cell `(a, b)` lies in the
/// `h x h` block whose corner is `(i0, j0)`.
pub open spec fn in_block(a: int, b: int, i0: int, j0: int, h: int) -> bool {
    i0 <= a < i0 + h && j0 <= b < j0 + h
}

/// Writing a whole tile extends the positions that carry the product by the tile.
pub proof fn lemma_filled_tile(
    r: Seq<u32>,
    s: Seq<u32>,
    d: Seq<u32>,
    n: int,
    done: spec_fn(int, int) -> bool,
    more: spec_fn(int, int) -> bool,
    i0: int,
    j0: int,
)
    requires
        0 <= n,
        r.len() == n * n,
        s.len() == n * n,
        filled(r, d, n, done),
        forall|p: int|
            0 <= p < n * n ==> if in_tile(p / n, p % n, i0, j0) {
                #[trigger] s[p] == min_plus(d, n, p / n, p % n)
            } else {
                s[p] == r[p]
            },
        forall|a: int, b: int|
            0 <= a < n && 0 <= b < n && #[trigger] more(a, b) ==> done(a, b) || in_tile(a, b, i0, j0),
    ensures
        filled(s, d, n, more),
{
    lemma_filled_block(r, s, d, n, done, more, i0, j0, 8);
}

/// Writing a whole block extends the positions that carry the product by the block.
pub proof fn lemma_filled_block(
    r: Seq<u32>,
    s: Seq<u32>,
    d: Seq<u32>,
    n: int,
    done: spec_fn(int, int) -> bool,
    more: spec_fn(int, int) -> bool,
    i0: int,
    j0: int,
    h: int,
)
    requires
        0 <= n,
        r.len() == n * n,
        s.len() == n * n,
        filled(r, d, n, done),
        forall|p: int|
            0 <= p < n * n ==> if in_block(p / n, p % n, i0, j0, h) {
                #[trigger] s[p] == min_plus(d, n, p / n, p % n)
            } else {
                s[p] == r[p]
            },
        forall|a: int, b: int|
            0 <= a < n && 0 <= b < n && #[trigger] more(a, b) ==> done(a, b) || in_block(a, b, i0, j0, h),
    ensures
        filled(s, d, n, more),
{
    assert forall|p: int| 0 <= p < n * n && #[trigger] more(p / n, p % n) implies s[p] == min_plus(
        d,
        n,
        p / n,
        p % n,
    ) by {
        assert(n > 0) by (nonlinear_arith)
            requires
                0 <= p < n * n,
                0 <= n,
        ;
        lemma_row_major_split(p, n, n);
    }
}

} // verus!
