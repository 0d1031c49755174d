//! Copies of the weight matrix in eight-lane vectors, padded with `INF`.
use vstd::prelude::*;
use crate::matrix::{entry, lemma_dim_fits, lemma_lanes_min, lemma_row_major_bound, min_plus, strided_prefix};
use crate::simd::{U32x8, U32X8_LENGTH, from_slice, horizontal_min};
use crate::tools::{INF, wadd, wmin};

verus! {

/// `vd` and `vt` are the vertical packing of the columns
/// `[col_begin, col_begin + width)`: row `iv` of `vd` holds, at position `c`,
/// the entries `(8 iv + b, col_begin + c)` in lane `b`, and row `iv` of `vt`
/// holds the entries `(col_begin + c, 8 iv + b)`.
pub open spec fn is_vertical_stripe(
    vd: Seq<Vec<U32x8>>,
    vt: Seq<Vec<U32x8>>,
    d: Seq<u32>,
    n: int,
    col_begin: int,
    width: int,
) -> bool {
    &&& vd.len() == (n + 7) / 8
    &&& vt.len() == (n + 7) / 8
    &&& forall|iv: int| 0 <= iv < vd.len() ==> (#[trigger] vd[iv])@.len() == width
    &&& forall|iv: int| 0 <= iv < vt.len() ==> (#[trigger] vt[iv])@.len() == width
    &&& forall|iv: int, c: int, b: int|
        0 <= iv < vd.len() && 0 <= c < width && 0 <= b < 8 ==> #[trigger] vd[iv]@[c][b] == entry(
            d,
            n,
            iv * 8 + b,
            col_begin + c,
        )
    &&& forall|iv: int, c: int, b: int|
        0 <= iv < vt.len() && 0 <= c < width && 0 <= b < 8 ==> #[trigger] vt[iv]@[c][b] == entry(
            d,
            n,
            col_begin + c,
            iv * 8 + b,
        )
}

/// Packs the columns `[col_begin, col_begin + width)` of `d` vertically:
/// each vector holds eight consecutive rows of one column, and lanes past
/// the matrix hold `INF`.
pub fn pack_vertical_stripe(d: &Vec<u32>, n: usize, col_begin: usize, width: usize) -> (r: (
    Vec<Vec<U32x8>>,
    Vec<Vec<U32x8>>,
))
    requires
        d@.len() == n * n,
        col_begin + width <= usize::MAX,
    ensures
        is_vertical_stripe(r.0@, r.1@, d@, n as int, col_begin as int, width as int),
{
    proof {
        let len = d.len();
        assert(n * n <= usize::MAX);
        lemma_dim_fits(n as int);
    }
    let vecs_per_col = (n + U32X8_LENGTH - 1) / U32X8_LENGTH;
    let col_end = if col_begin + width < n {
        col_begin + width
    } else {
        n
    };
    let mut vd: Vec<Vec<U32x8>> = Vec::new();
    let mut vt: Vec<Vec<U32x8>> = Vec::new();
    for i in 0..vecs_per_col
        invariant
            d@.len() == n * n,
            n * n <= usize::MAX,
            n + 1024 <= usize::MAX,
            vecs_per_col == (n + 7) / 8,
            col_begin + width <= usize::MAX,
            col_end <= n,
            col_end == col_begin + width || col_end == n,
            vd@.len() == i,
            vt@.len() == i,
            forall|iv: int| 0 <= iv < i ==> (#[trigger] vd@[iv])@.len() == width,
            forall|iv: int| 0 <= iv < i ==> (#[trigger] vt@[iv])@.len() == width,
            forall|iv: int, c: int, b: int|
                0 <= iv < i && 0 <= c < width && 0 <= b < 8 ==> #[trigger] vd@[iv]@[c][b] == entry(
                    d@,
                    n as int,
                    iv * 8 + b,
                    col_begin + c,
                ),
            forall|iv: int, c: int, b: int|
                0 <= iv < i && 0 <= c < width && 0 <= b < 8 ==> #[trigger] vt@[iv]@[c][b] == entry(
                    d@,
                    n as int,
                    col_begin + c,
                    iv * 8 + b,
                ),
    {
        let mut vd_row: Vec<U32x8> = Vec::new();
        let mut vt_row: Vec<U32x8> = Vec::new();
        for jv in 0..width
            invariant
                d@.len() == n * n,
                n * n <= usize::MAX,
                n + 1024 <= usize::MAX,
                i < vecs_per_col,
                vecs_per_col == (n + 7) / 8,
                col_begin + width <= usize::MAX,
                col_end <= n,
                col_end == col_begin + width || col_end == n,
                vd_row@.len() == jv,
                vt_row@.len() == jv,
                forall|c: int, b: int|
                    0 <= c < jv && 0 <= b < 8 ==> #[trigger] vd_row@[c][b] == entry(
                        d@,
                        n as int,
                        i * 8 + b,
                        col_begin + c,
                    ),
                forall|c: int, b: int|
                    0 <= c < jv && 0 <= b < 8 ==> #[trigger] vt_row@[c][b] == entry(
                        d@,
                        n as int,
                        col_begin + c,
                        i * 8 + b,
                    ),
        {
            let mut x_tmp: U32x8 = [INF; 8];
            let mut y_tmp: U32x8 = [INF; 8];
            for b in 0..U32X8_LENGTH
                invariant
                    d@.len() == n * n,
                    n * n <= usize::MAX,
                    n + 1024 <= usize::MAX,
                    i < vecs_per_col,
                    vecs_per_col == (n + 7) / 8,
                    jv < width,
                    col_begin + width <= usize::MAX,
                    col_end <= n,
                    col_end == col_begin + width || col_end == n,
                    forall|l: int|
                        0 <= l < b ==> #[trigger] x_tmp[l] == entry(d@, n as int, i * 8 + l, col_begin + jv),
                    forall|l: int| b <= l < 8 ==> #[trigger] x_tmp[l] == INF,
                    forall|l: int| b <= l < 8 ==> #[trigger] y_tmp[l] == INF,
                    forall|l: int|
                        0 <= l < b ==> #[trigger] y_tmp[l] == entry(d@, n as int, col_begin + jv, i * 8 + l),
            {
                let d_row = i * U32X8_LENGTH + b;
                let d_col = col_begin + jv;
                if d_row < n && d_col < col_end {
                    proof {
                        lemma_row_major_bound(d_row as int, d_col as int, n as int, n as int);
                        lemma_row_major_bound(d_col as int, d_row as int, n as int, n as int);
                    }
                    x_tmp[b] = d[d_row * n + d_col];
                    y_tmp[b] = d[d_col * n + d_row];
                }
            }
            vd_row.push(from_slice(&x_tmp));
            vt_row.push(from_slice(&y_tmp));
        }
        vd.push(vd_row);
        vt.push(vt_row);
    }
    (vd, vt)
}

/// `vd` and `vt` are the row packing of `d` over `rows` rows of `vecs`
/// vectors: lane `b` of vector `c` in row `i` of `vd` holds entry
/// `(i, 8 c + b)`, and in row `i` of `vt` entry `(8 c + b, i)`.
pub open spec fn is_row_packing(
    vd: Seq<Vec<U32x8>>,
    vt: Seq<Vec<U32x8>>,
    d: Seq<u32>,
    n: int,
    rows: int,
    vecs: int,
) -> bool {
    &&& vd.len() == rows
    &&& vt.len() == rows
    &&& forall|i: int| 0 <= i < rows ==> (#[trigger] vd[i])@.len() == vecs
    &&& forall|i: int| 0 <= i < rows ==> (#[trigger] vt[i])@.len() == vecs
    &&& forall|i: int, c: int, b: int|
        0 <= i < rows && 0 <= c < vecs && 0 <= b < 8 ==> #[trigger] vd[i]@[c][b] == entry(d, n, i, c * 8 + b)
    &&& forall|i: int, c: int, b: int|
        0 <= i < rows && 0 <= c < vecs && 0 <= b < 8 ==> #[trigger] vt[i]@[c][b] == entry(d, n, c * 8 + b, i)
}

/// Packs `rows` rows of `d` and of its transpose into vectors of eight
/// consecutive columns; lanes and rows past the matrix hold `INF`.
pub fn pack_rows(d: &Vec<u32>, n: usize, rows: usize) -> (r: (Vec<Vec<U32x8>>, Vec<Vec<U32x8>>))
    requires
        d@.len() == n * n,
    ensures
        is_row_packing(r.0@, r.1@, d@, n as int, rows as int, (n + 7) / 8),
{
    proof {
        let len = d.len();
        lemma_dim_fits(n as int);
    }
    let vecs_per_row = (n + U32X8_LENGTH - 1) / U32X8_LENGTH;
    let mut vd: Vec<Vec<U32x8>> = Vec::new();
    let mut vt: Vec<Vec<U32x8>> = Vec::new();
    for i in 0..rows
        invariant
            d@.len() == n * n,
            n * n <= usize::MAX,
            n + 1024 <= usize::MAX,
            vecs_per_row == (n + 7) / 8,
            vd@.len() == i,
            vt@.len() == i,
            forall|a: int| 0 <= a < i ==> (#[trigger] vd@[a])@.len() == vecs_per_row,
            forall|a: int| 0 <= a < i ==> (#[trigger] vt@[a])@.len() == vecs_per_row,
            forall|a: int, c: int, b: int|
                0 <= a < i && 0 <= c < vecs_per_row && 0 <= b < 8 ==> #[trigger] vd@[a]@[c][b] == entry(
                    d@,
                    n as int,
                    a,
                    c * 8 + b,
                ),
            forall|a: int, c: int, b: int|
                0 <= a < i && 0 <= c < vecs_per_row && 0 <= b < 8 ==> #[trigger] vt@[a]@[c][b] == entry(
                    d@,
                    n as int,
                    c * 8 + b,
                    a,
                ),
    {
        let mut vd_row: Vec<U32x8> = Vec::new();
        let mut vt_row: Vec<U32x8> = Vec::new();
        for jv in 0..vecs_per_row
            invariant
                d@.len() == n * n,
                n * n <= usize::MAX,
                n + 1024 <= usize::MAX,
                vecs_per_row == (n + 7) / 8,
                vd_row@.len() == jv,
                vt_row@.len() == jv,
                forall|c: int, b: int|
                    0 <= c < jv && 0 <= b < 8 ==> #[trigger] vd_row@[c][b] == entry(d@, n as int, i as int, c * 8 + b),
                forall|c: int, b: int|
                    0 <= c < jv && 0 <= b < 8 ==> #[trigger] vt_row@[c][b] == entry(d@, n as int, c * 8 + b, i as int),
        {
            let mut x_tmp: U32x8 = [INF; 8];
            let mut y_tmp: U32x8 = [INF; 8];
            for b in 0..U32X8_LENGTH
                invariant
                    d@.len() == n * n,
                    n * n <= usize::MAX,
                    n + 1024 <= usize::MAX,
                    vecs_per_row == (n + 7) / 8,
                    jv < vecs_per_row,
                    forall|l: int| b <= l < 8 ==> #[trigger] x_tmp[l] == INF,
                    forall|l: int| b <= l < 8 ==> #[trigger] y_tmp[l] == INF,
                    forall|l: int| 0 <= l < b ==> #[trigger] x_tmp[l] == entry(d@, n as int, i as int, jv * 8 + l),
                    forall|l: int| 0 <= l < b ==> #[trigger] y_tmp[l] == entry(d@, n as int, jv * 8 + l, i as int),
            {
                let j = jv * U32X8_LENGTH + b;
                if i < n && j < n {
                    proof {
                        lemma_row_major_bound(i as int, j as int, n as int, n as int);
                        lemma_row_major_bound(j as int, i as int, n as int, n as int);
                    }
                    x_tmp[b] = d[i * n + j];
                    y_tmp[b] = d[j * n + i];
                }
            }
            vd_row.push(from_slice(&x_tmp));
            vt_row.push(from_slice(&y_tmp));
        }
        vd.push(vd_row);
        vt.push(vt_row);
    }
    (vd, vt)
}

/// Lane `b` of `v` holds the fold of the terms `8 t + b` for `t < m`.
pub open spec fn lanes_acc(v: U32x8, d: Seq<u32>, n: int, i: int, j: int, m: int) -> bool {
    forall|b: int| 0 <= b < 8 ==> #[trigger] v[b] == strided_prefix(d, n, i, j, b, 8, m)
}

/// Folding in the row vector `x` and the column vector `y` of vector column
/// `m` advances a lane accumulator by one step.
pub proof fn lemma_lanes_step(v: U32x8, r: U32x8, x: U32x8, y: U32x8, d: Seq<u32>, n: int, i: int, j: int, m: int)
    requires
        0 <= m,
        lanes_acc(v, d, n, i, j, m),
        forall|b: int| 0 <= b < 8 ==> #[trigger] x[b] == entry(d, n, i, m * 8 + b),
        forall|b: int| 0 <= b < 8 ==> #[trigger] y[b] == entry(d, n, m * 8 + b, j),
        forall|b: int| 0 <= b < 8 ==> #[trigger] r[b] == wmin(v[b], wadd(x[b], y[b])),
    ensures
        lanes_acc(r, d, n, i, j, m + 1),
{
    assert forall|b: int| 0 <= b < 8 implies #[trigger] r[b] == strided_prefix(d, n, i, j, b, 8, m + 1) by {
        assert(v[b] == strided_prefix(d, n, i, j, b, 8, m));
        assert(x[b] == entry(d, n, i, m * 8 + b));
        assert(y[b] == entry(d, n, m * 8 + b, j));
    }
}

/// Reduces a lane accumulator that has seen every column of the matrix to
/// the cell `R[i, j]`.
pub fn reduce_lanes(tmp: U32x8, Ghost(d): Ghost<Seq<u32>>, n: usize, i: usize, j: usize, Ghost(m): Ghost<int>) -> (v: u32)
    requires
        0 <= n <= m * 8,
        0 <= m,
        lanes_acc(tmp, d, n as int, i as int, j as int, m),
    ensures
        v == min_plus(d, n as int, i as int, j as int),
{
    let v = horizontal_min(tmp);
    proof {
        assert forall|b: int| 0 <= b < 8 implies v <= #[trigger] strided_prefix(d, n as int, i as int, j as int, b, 8, m) by {
            assert(v <= tmp[b]);
        }
        let l = choose|l: int| 0 <= l < 8 && v == #[trigger] tmp[l];
        assert(v == strided_prefix(d, n as int, i as int, j as int, l, 8, m));
        lemma_lanes_min(v, d, n as int, i as int, j as int, 8, m);
    }
    v
}

} // verus!
