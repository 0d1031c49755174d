//! The 8 x 8 tile of the vertical packing with its eight accumulators held
//! in eight separate variables, so that none of them has to leave a register.
//! Fetching ahead is left to the hardware prefetcher: a software prefetch
//! hint needs `unsafe` intrinsics and never changes a result.
use vstd::prelude::*;
use crate::matrix::{filled, in_tile, is_product, lemma_dim_fits, lemma_filled_none, lemma_filled_product,
    lemma_filled_tile, lemma_filled_weaken, min_plus};
use crate::packing::{is_vertical_stripe, pack_vertical_stripe};
use crate::simd;
use crate::simd::{U32x8, U32X8_LENGTH, lane_xor, lemma_lane_xor, lemma_xor_table};
use crate::tile::{Tile, col_bits, lemma_finish_ready, lemma_tile_step, row_bits, tile_acc, write_tile};

verus! {

/// Computes the 8 x 8 block of the product whose corner is `(8 iv, 8 jv)`
/// and writes the part of it that lies in the matrix into `r`.
pub fn step_block(
    r: &mut Vec<u32>,
    vd: &Vec<Vec<U32x8>>,
    vt: &Vec<Vec<U32x8>>,
    n: usize,
    iv: usize,
    jv: usize,
    Ghost(d): Ghost<Seq<u32>>,
)
    requires
        old(r)@.len() == n * n,
        d.len() == n * n,
        n * n <= usize::MAX,
        iv < (n + 7) / 8,
        jv < (n + 7) / 8,
        is_vertical_stripe(vd@, vt@, d, n as int, 0, n as int),
    ensures
        final(r)@.len() == n * n,
        forall|p: int|
            0 <= p < n * n ==> if in_tile(p / (n as int), p % (n as int), iv * 8, jv * 8) {
                #[trigger] final(r)@[p] == min_plus(d, n as int, p / (n as int), p % (n as int))
            } else {
                final(r)@[p] == old(r)@[p]
            },
{
    proof {
        lemma_dim_fits(n as int);
        lemma_xor_table();
    }
    let vd_row = &vd[iv];
    let vt_row = &vt[jv];
    let mut tmp0 = simd::f32x8_infty();
    let mut tmp1 = simd::f32x8_infty();
    let mut tmp2 = simd::f32x8_infty();
    let mut tmp3 = simd::f32x8_infty();
    let mut tmp4 = simd::f32x8_infty();
    let mut tmp5 = simd::f32x8_infty();
    let mut tmp6 = simd::f32x8_infty();
    let mut tmp7 = simd::f32x8_infty();
    for col in 0..n
        invariant
            vd_row@.len() == n,
            vt_row@.len() == n,
            *vd_row == vd@[iv as int],
            *vt_row == vt@[jv as int],
            iv < vd@.len(),
            jv < vt@.len(),
            is_vertical_stripe(vd@, vt@, d, n as int, 0, n as int),
            tile_acc([tmp0, tmp1, tmp2, tmp3, tmp4, tmp5, tmp6, tmp7], d, n as int, iv * 8, jv * 8, col as int),
    {
        let ghost before: Tile = [tmp0, tmp1, tmp2, tmp3, tmp4, tmp5, tmp6, tmp7];
        let d0 = vd_row[col];
        let t0 = vt_row[col];
        let d2 = simd::swap(d0, 2);
        let d4 = simd::swap(d0, 4);
        let d6 = simd::swap(d4, 2);
        let t1 = simd::swap(t0, 1);
        tmp0 = simd::min(tmp0, simd::add(d0, t0));
        tmp1 = simd::min(tmp1, simd::add(d0, t1));
        tmp2 = simd::min(tmp2, simd::add(d2, t0));
        tmp3 = simd::min(tmp3, simd::add(d2, t1));
        tmp4 = simd::min(tmp4, simd::add(d4, t0));
        tmp5 = simd::min(tmp5, simd::add(d4, t1));
        tmp6 = simd::min(tmp6, simd::add(d6, t0));
        tmp7 = simd::min(tmp7, simd::add(d6, t1));
        proof {
            let after: Tile = [tmp0, tmp1, tmp2, tmp3, tmp4, tmp5, tmp6, tmp7];
            lemma_xor_table();
            assert forall|l: int| 0 <= l < 8 implies d6[l] == d0[lane_xor(l, 6)] && d0[l] == d0[lane_xor(
                l,
                0,
            )] && t0[l] == t0[lane_xor(l, 0)] by {
                lemma_lane_xor(l, 2, 4);
                lemma_lane_xor(l, 0, 0);
                lemma_lane_xor(2, 4, 0);
            }
            assert forall|k: int, l: int| 0 <= k < 8 && 0 <= l < 8 implies #[trigger] after[k][l] == crate::tools::wmin(
                before[k][l],
                crate::tools::wadd(d0[lane_xor(l, row_bits(k))], t0[lane_xor(l, col_bits(k))]),
            ) by {
                assert(k == 0 || k == 1 || k == 2 || k == 3 || k == 4 || k == 5 || k == 6 || k == 7);
            }
            lemma_tile_step(before, after, d0, t0, d, n as int, iv * 8, jv * 8, col as int);
        }
    }
    let tmp: Tile = [
        tmp0,
        simd::swap(tmp1, 1),
        tmp2,
        simd::swap(tmp3, 1),
        tmp4,
        simd::swap(tmp5, 1),
        tmp6,
        simd::swap(tmp7, 1),
    ];
    proof {
        assert forall|l: int| 0 <= l < 8 implies lane_xor(l, 0) == l by {
            lemma_lane_xor(l, 0, 0);
        }
        lemma_finish_ready(
            [tmp0, tmp1, tmp2, tmp3, tmp4, tmp5, tmp6, tmp7],
            tmp,
            d,
            n as int,
            iv * 8,
            jv * 8,
            n as int,
        );
    }
    write_tile(r, &tmp, n, iv * U32X8_LENGTH, jv * U32X8_LENGTH, Ghost(d));
}

/// Writes the min-plus product of the `n x n` matrix `d` with itself into
/// `r`; the matrix has at least one row.
pub fn step(r: &mut Vec<u32>, d: &Vec<u32>, n: usize)
    requires
        n >= 1,
        old(r)@.len() == n * n,
        d@.len() == n * n,
    ensures
        is_product(final(r)@, d@, n as int),
{
    assert(n * n <= usize::MAX) by {
        let len = d.len();
    }
    proof {
        lemma_dim_fits(n as int);
        lemma_filled_none(r@, d@, n as int);
    }
    let vecs_per_col = (n + U32X8_LENGTH - 1) / U32X8_LENGTH;
    let (vd, vt) = pack_vertical_stripe(d, n, 0, n);
    for iv in 0..vecs_per_col
        invariant
            n * n <= usize::MAX,
            n + 1024 <= usize::MAX,
            vecs_per_col == (n + 7) / 8,
            r@.len() == n * n,
            d@.len() == n * n,
            is_vertical_stripe(vd@, vt@, d@, n as int, 0, n as int),
            filled(r@, d@, n as int, |a: int, b: int| a < iv * 8),
    {
        proof {
            lemma_filled_weaken(r@, d@, n as int, |a: int, b: int| a < iv * 8, |a: int, b: int| a < iv * 8 || (a < iv * 8 + 8 && b < 0));
        }
        for jv in 0..vecs_per_col
            invariant
                n * n <= usize::MAX,
                n + 1024 <= usize::MAX,
                vecs_per_col == (n + 7) / 8,
                iv < vecs_per_col,
                r@.len() == n * n,
                d@.len() == n * n,
                is_vertical_stripe(vd@, vt@, d@, n as int, 0, n as int),
                filled(r@, d@, n as int, |a: int, b: int| a < iv * 8 || (a < iv * 8 + 8 && b < jv * 8)),
        {
            let ghost before = r@;
            step_block(r, &vd, &vt, n, iv, jv, Ghost(d@));
            proof {
                lemma_filled_tile(
                    before,
                    r@,
                    d@,
                    n as int,
                    |a: int, b: int| a < iv * 8 || (a < iv * 8 + 8 && b < jv * 8),
                    |a: int, b: int| a < iv * 8 || (a < iv * 8 + 8 && b < jv * 8 + 8),
                    iv * 8,
                    jv * 8,
                );
            }
        }
        proof {
            lemma_filled_weaken(r@, d@, n as int, |a: int, b: int| a < iv * 8 || (a < iv * 8 + 8 && b < vecs_per_col * 8), |a: int, b: int| a < iv * 8 + 8);
        }
    }
    proof {
        lemma_filled_weaken(r@, d@, n as int, |a: int, b: int| a < vecs_per_col * 8, |a: int, b: int| a < n);
        lemma_filled_product(r@, d@, n as int, |a: int, b: int| a < n);
    }
}

} // verus!
