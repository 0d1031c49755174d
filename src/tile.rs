//! The 8 x 8 tile over the vertical packing: eight accumulators hold the 64
//! cells of a block of the product, paired through lane permutations.
use vstd::prelude::*;
use crate::matrix::{
    entry, in_tile, lemma_prefix_tail, lemma_row_major, lemma_row_major_bound,
    lemma_row_major_split, min_plus, min_prefix,
};
use crate::simd;
use crate::simd::{U32x8, U32X8_LENGTH, lane_xor, lemma_lane_xor, lemma_usize_xor, lemma_xor_table};
use crate::tools::{wadd, wmin};

verus! {

/// Eight accumulators that together cover an 8 x 8 block of the product.
pub type Tile = [U32x8; 8];

/// The lane flips applied to the row vector for accumulator `k`.
pub open spec fn row_bits(k: int) -> int {
    k - k % 2
}

/// The lane flip applied to the column vector for accumulator `k`.
pub open spec fn col_bits(k: int) -> int {
    k % 2
}

/// After the columns `[0, m)`, lane `l` of accumulator `k` holds the fold for
/// row `i0 + (l ^ row_bits(k))` and column `j0 + (l ^ col_bits(k))`.
pub open spec fn tile_acc(tmp: Tile, d: Seq<u32>, n: int, i0: int, j0: int, m: int) -> bool {
    forall|k: int, l: int|
        0 <= k < 8 && 0 <= l < 8 ==> #[trigger] tmp[k][l] == min_prefix(
            d,
            n,
            i0 + lane_xor(l, row_bits(k)),
            j0 + lane_xor(l, col_bits(k)),
            m,
        )
}

/// Cell `(i0 + x, j0 + y)` of the product is lane `y` of accumulator `x ^ y`.
pub open spec fn tile_ready(out: Tile, d: Seq<u32>, n: int, i0: int, j0: int) -> bool {
    forall|x: int, y: int|
        0 <= x < 8 && 0 <= y < 8 && i0 + x < n && j0 + y < n ==> #[trigger] out[lane_xor(x, y)][y]
            == min_plus(d, n, i0 + x, j0 + y)
}

/// Eight accumulators of `INF`.
pub fn tile_infty() -> (r: Tile)
    ensures
        forall|k: int, l: int| 0 <= k < 8 && 0 <= l < 8 ==> #[trigger] r[k][l] == crate::tools::INF,
{
    [crate::simd::f32x8_infty(); 8]
}

/// One column: `d0` is read in four lane orders and `t0` in two, and each
/// of the eight pairings is added and folded into its accumulator.
pub fn accumulate(tmp: Tile, d0: U32x8, t0: U32x8) -> (r: Tile)
    ensures
        forall|k: int, l: int|
            0 <= k < 8 && 0 <= l < 8 ==> #[trigger] r[k][l] == wmin(
                tmp[k][l],
                wadd(d0[lane_xor(l, row_bits(k))], t0[lane_xor(l, col_bits(k))]),
            ),
{
    let mut tmp = tmp;
    let d2 = simd::swap(d0, 2);
    let d4 = simd::swap(d0, 4);
    let d6 = simd::swap(d4, 2);
    let t1 = simd::swap(t0, 1);
    tmp[0] = simd::min(tmp[0], simd::add(d0, t0));
    tmp[1] = simd::min(tmp[1], simd::add(d0, t1));
    tmp[2] = simd::min(tmp[2], simd::add(d2, t0));
    tmp[3] = simd::min(tmp[3], simd::add(d2, t1));
    tmp[4] = simd::min(tmp[4], simd::add(d4, t0));
    tmp[5] = simd::min(tmp[5], simd::add(d4, t1));
    tmp[6] = simd::min(tmp[6], simd::add(d6, t0));
    tmp[7] = simd::min(tmp[7], simd::add(d6, t1));
    proof {
        lemma_xor_table();
        assert forall|l: int| 0 <= l < 8 implies d6[l] == d0[lane_xor(l, 6)] && d0[l] == d0[lane_xor(
            l,
            0,
        )] && t0[l] == t0[lane_xor(l, 0)] by {
            lemma_lane_xor(l, 2, 4);
            lemma_lane_xor(l, 0, 0);
            lemma_lane_xor(2, 4, 0);
        }
    }
    tmp
}

/// Turns the odd accumulators back by one lane, so that cell `(x, y)` of the
/// block is lane `y` of accumulator `x ^ y`.
pub fn finish(tmp: Tile) -> (r: Tile)
    ensures
        forall|k: int, l: int|
            0 <= k < 8 && 0 <= l < 8 ==> #[trigger] r[k][l] == tmp[k][lane_xor(l, col_bits(k))],
{
    let mut r = tmp;
    r[1] = simd::swap(tmp[1], 1);
    r[3] = simd::swap(tmp[3], 1);
    r[5] = simd::swap(tmp[5], 1);
    r[7] = simd::swap(tmp[7], 1);
    proof {
        assert forall|l: int| 0 <= l < 8 implies lane_xor(l, 0) == l by {
            lemma_lane_xor(l, 0, 0);
        }
    }
    r
}

proof fn lemma_cell(x: int, y: int)
    requires
        0 <= x < 8,
        0 <= y < 8,
    ensures
        0 <= lane_xor(x, y) < 8,
        0 <= lane_xor(y, col_bits(lane_xor(x, y))) < 8,
        lane_xor(lane_xor(y, col_bits(lane_xor(x, y))), row_bits(lane_xor(x, y))) == x,
        lane_xor(lane_xor(y, col_bits(lane_xor(x, y))), col_bits(lane_xor(x, y))) == y,
{
    let k = lane_xor(x, y);
    lemma_lane_xor(x, y, 0);
    let k8 = k as u8;
    assert((k8 % 2) ^ ((k8 - k8 % 2) as u8) == k8) by (bit_vector)
        requires
            k8 < 8,
    ;
    assert(lane_xor(col_bits(k), row_bits(k)) == k);
    lemma_lane_xor(y, col_bits(k), row_bits(k));
    lemma_lane_xor(y, col_bits(k), col_bits(k));
    lemma_lane_xor(y, k, 0);
    lemma_lane_xor(x, y, y);
}

/// One column step keeps the accumulators in step with the fold.
pub proof fn lemma_tile_step(
    tmp: Tile,
    r: Tile,
    d0: U32x8,
    t0: U32x8,
    d: Seq<u32>,
    n: int,
    i0: int,
    j0: int,
    m: int,
)
    requires
        0 <= m,
        tile_acc(tmp, d, n, i0, j0, m),
        forall|b: int| 0 <= b < 8 ==> #[trigger] d0[b] == entry(d, n, i0 + b, m),
        forall|b: int| 0 <= b < 8 ==> #[trigger] t0[b] == entry(d, n, m, j0 + b),
        forall|k: int, l: int|
            0 <= k < 8 && 0 <= l < 8 ==> #[trigger] r[k][l] == wmin(
                tmp[k][l],
                wadd(d0[lane_xor(l, row_bits(k))], t0[lane_xor(l, col_bits(k))]),
            ),
    ensures
        tile_acc(r, d, n, i0, j0, m + 1),
{
    assert forall|k: int, l: int| 0 <= k < 8 && 0 <= l < 8 implies #[trigger] r[k][l] == min_prefix(
        d,
        n,
        i0 + lane_xor(l, row_bits(k)),
        j0 + lane_xor(l, col_bits(k)),
        m + 1,
    ) by {
        lemma_lane_xor(l, row_bits(k), 0);
        lemma_lane_xor(l, col_bits(k), 0);
        assert(tmp[k][l] == min_prefix(
            d,
            n,
            i0 + lane_xor(l, row_bits(k)),
            j0 + lane_xor(l, col_bits(k)),
            m,
        ));
    }
}

/// Accumulators that folded at least the `n` columns of the matrix, once
/// turned back, are ready to be written.
pub proof fn lemma_finish_ready(tmp: Tile, out: Tile, d: Seq<u32>, n: int, i0: int, j0: int, m: int)
    requires
        0 <= n <= m,
        tile_acc(tmp, d, n, i0, j0, m),
        forall|k: int, l: int|
            0 <= k < 8 && 0 <= l < 8 ==> #[trigger] out[k][l] == tmp[k][lane_xor(l, col_bits(k))],
    ensures
        tile_ready(out, d, n, i0, j0),
{
    assert forall|x: int, y: int| 0 <= x < 8 && 0 <= y < 8 && i0 + x < n && j0 + y < n implies #[trigger] out[lane_xor(x, y)][y]
        == min_plus(d, n, i0 + x, j0 + y) by {
        lemma_cell(x, y);
        let k = lane_xor(x, y);
        let l = lane_xor(y, col_bits(k));
        assert(tmp[k][l] == min_prefix(
            d,
            n,
            i0 + lane_xor(l, row_bits(k)),
            j0 + lane_xor(l, col_bits(k)),
            m,
        ));
        lemma_prefix_tail(d, n, i0 + x, j0 + y, m);
    }
}

/// Writes the cells of the tile with corner `(i0, j0)` that lie in the matrix
/// and leaves every other position of `r` as it was.
pub fn write_tile(r: &mut Vec<u32>, out: &Tile, n: usize, i0: usize, j0: usize, Ghost(d): Ghost<Seq<u32>>)
    requires
        old(r)@.len() == n * n,
        n * n <= usize::MAX,
        i0 + 8 <= usize::MAX,
        j0 + 8 <= usize::MAX,
        tile_ready(*out, d, n as int, i0 as int, j0 as int),
    ensures
        final(r)@.len() == n * n,
        forall|p: int|
            0 <= p < n * n ==> if in_tile(p / (n as int), p % (n as int), i0 as int, j0 as int) {
                #[trigger] final(r)@[p] == min_plus(d, n as int, p / (n as int), p % (n as int))
            } else {
                final(r)@[p] == old(r)@[p]
            },
{
    let ghost r0 = r@;
    for ti in 0..U32X8_LENGTH
        invariant
            r@.len() == n * n,
            n * n <= usize::MAX,
            i0 + 8 <= usize::MAX,
            j0 + 8 <= usize::MAX,
            r0.len() == n * n,
            tile_ready(*out, d, n as int, i0 as int, j0 as int),
            forall|p: int|
                0 <= p < n * n ==> if in_tile(p / (n as int), p % (n as int), i0 as int, j0 as int) && p
                    / (n as int) < i0 + ti {
                    #[trigger] r@[p] == min_plus(d, n as int, p / (n as int), p % (n as int))
                } else {
                    r@[p] == r0[p]
                },
    {
        for tj in 0..U32X8_LENGTH
            invariant
                0 <= ti < 8,
                r@.len() == n * n,
                n * n <= usize::MAX,
                i0 + 8 <= usize::MAX,
                j0 + 8 <= usize::MAX,
                r0.len() == n * n,
                tile_ready(*out, d, n as int, i0 as int, j0 as int),
                forall|p: int|
                    0 <= p < n * n ==> if in_tile(p / (n as int), p % (n as int), i0 as int, j0 as int) && ((p
                        / (n as int)) < i0 + ti || (p / (n as int) == i0 + ti && p % (n as int)
                        < j0 + tj)) {
                        #[trigger] r@[p] == min_plus(d, n as int, p / (n as int), p % (n as int))
                    } else {
                        r@[p] == r0[p]
                    },
        {
            let res_i = i0 + ti;
            let res_j = j0 + tj;
            let ghost before = r@;
            if res_i < n && res_j < n {
                proof {
                    lemma_usize_xor(ti, tj);
                    lemma_row_major(res_i as int, res_j as int, n as int);
                    lemma_row_major_bound(res_i as int, res_j as int, n as int, n as int);
                    assert(out[lane_xor(ti as int, tj as int)][tj as int] == min_plus(
                        d,
                        n as int,
                        i0 + ti,
                        j0 + tj,
                    ));
                }
                let v = simd::extract(out[ti ^ tj], tj as u8);
                r.set(res_i * n + res_j, v);
            }
            proof {
                assert forall|p: int| 0 <= p < n * n implies if in_tile(
                    p / (n as int),
                    p % (n as int),
                    i0 as int,
                    j0 as int,
                ) && ((p / (n as int)) < i0 + ti || (p / (n as int) == i0 + ti && p % (n as int) < j0 + tj
                    + 1)) {
                    #[trigger] r@[p] == min_plus(d, n as int, p / (n as int), p % (n as int))
                } else {
                    r@[p] == r0[p]
                } by {
                    lemma_row_major_split(p, n as int, n as int);
                    if res_i < n && res_j < n {
                        lemma_row_major(res_i as int, res_j as int, n as int);
                    }
                }
            }
        }
    }
}

} // verus!
