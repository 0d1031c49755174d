//! A 3 x 3 register tile over the row packing: three rows of `D` and three
//! columns of `D` are loaded once per vector column and combined nine ways.
use vstd::prelude::*;
use crate::matrix::{filled, in_block, is_product, lemma_dim_fits, lemma_filled_block, lemma_filled_none,
    lemma_filled_product, lemma_filled_weaken, lemma_row_major, lemma_row_major_bound,
    lemma_row_major_split, min_plus};
use crate::packing::{is_row_packing, lanes_acc, lemma_lanes_step, pack_rows, reduce_lanes};
use crate::simd;
use crate::simd::U32x8;

verus! {

/// Rows (and columns) per register tile.
pub const BLOCK_HEIGHT: usize = 3;

/// Computes the 3 x 3 block of the product whose corner is `(3 i, 3 j)` and
/// writes the part of it that lies in the matrix into `r`.
pub fn step_block(
    r: &mut Vec<u32>,
    vd: &Vec<Vec<U32x8>>,
    vt: &Vec<Vec<U32x8>>,
    n: usize,
    i: usize,
    j: usize,
    Ghost(d): Ghost<Seq<u32>>,
)
    requires
        old(r)@.len() == n * n,
        n * n <= usize::MAX,
        n + 1024 <= usize::MAX,
        i < (n + 2) / 3,
        j < (n + 2) / 3,
        is_row_packing(vd@, vt@, d, n as int, 3 * ((n + 2) / 3), (n + 7) / 8),
    ensures
        final(r)@.len() == n * n,
        forall|p: int|
            0 <= p < n * n ==> if in_block(p / (n as int), p % (n as int), i * 3, j * 3, 3) {
                #[trigger] final(r)@[p] == min_plus(d, n as int, p / (n as int), p % (n as int))
            } else {
                final(r)@[p] == old(r)@[p]
            },
{
    let ghost i0 = i * 3;
    let ghost j0 = j * 3;
    let vd_row_0 = &vd[BLOCK_HEIGHT * i];
    let vd_row_1 = &vd[BLOCK_HEIGHT * i + 1];
    let vd_row_2 = &vd[BLOCK_HEIGHT * i + 2];
    let vt_row_0 = &vt[BLOCK_HEIGHT * j];
    let vt_row_1 = &vt[BLOCK_HEIGHT * j + 1];
    let vt_row_2 = &vt[BLOCK_HEIGHT * j + 2];
    let vecs_per_row = vd_row_0.len();
    let mut tmp0 = simd::f32x8_infty();
    let mut tmp1 = simd::f32x8_infty();
    let mut tmp2 = simd::f32x8_infty();
    let mut tmp3 = simd::f32x8_infty();
    let mut tmp4 = simd::f32x8_infty();
    let mut tmp5 = simd::f32x8_infty();
    let mut tmp6 = simd::f32x8_infty();
    let mut tmp7 = simd::f32x8_infty();
    let mut tmp8 = simd::f32x8_infty();
    for c in 0..vecs_per_row
        invariant
            vecs_per_row == (n + 7) / 8,
            i0 == i * 3,
            j0 == j * 3,
            i < (n + 2) / 3,
            j < (n + 2) / 3,
            is_row_packing(vd@, vt@, d, n as int, 3 * ((n + 2) / 3), (n + 7) / 8),
            *vd_row_0 == vd@[i0],
            *vd_row_1 == vd@[i0 + 1],
            *vd_row_2 == vd@[i0 + 2],
            *vt_row_0 == vt@[j0],
            *vt_row_1 == vt@[j0 + 1],
            *vt_row_2 == vt@[j0 + 2],
            lanes_acc(tmp0, d, n as int, i0, j0, c as int),
            lanes_acc(tmp1, d, n as int, i0, j0 + 1, c as int),
            lanes_acc(tmp2, d, n as int, i0, j0 + 2, c as int),
            lanes_acc(tmp3, d, n as int, i0 + 1, j0, c as int),
            lanes_acc(tmp4, d, n as int, i0 + 1, j0 + 1, c as int),
            lanes_acc(tmp5, d, n as int, i0 + 1, j0 + 2, c as int),
            lanes_acc(tmp6, d, n as int, i0 + 2, j0, c as int),
            lanes_acc(tmp7, d, n as int, i0 + 2, j0 + 1, c as int),
            lanes_acc(tmp8, d, n as int, i0 + 2, j0 + 2, c as int),
    {
        let d0 = vd_row_0[c];
        let d1 = vd_row_1[c];
        let d2 = vd_row_2[c];
        let t0 = vt_row_0[c];
        let t1 = vt_row_1[c];
        let t2 = vt_row_2[c];
        let ghost old_tmp = [tmp0, tmp1, tmp2, tmp3, tmp4, tmp5, tmp6, tmp7, tmp8];
        tmp0 = simd::min(tmp0, simd::add(d0, t0));
        tmp1 = simd::min(tmp1, simd::add(d0, t1));
        tmp2 = simd::min(tmp2, simd::add(d0, t2));
        tmp3 = simd::min(tmp3, simd::add(d1, t0));
        tmp4 = simd::min(tmp4, simd::add(d1, t1));
        tmp5 = simd::min(tmp5, simd::add(d1, t2));
        tmp6 = simd::min(tmp6, simd::add(d2, t0));
        tmp7 = simd::min(tmp7, simd::add(d2, t1));
        tmp8 = simd::min(tmp8, simd::add(d2, t2));
        proof {
            let m = c as int;
            lemma_lanes_step(old_tmp[0], tmp0, d0, t0, d, n as int, i0, j0, m);
            lemma_lanes_step(old_tmp[1], tmp1, d0, t1, d, n as int, i0, j0 + 1, m);
            lemma_lanes_step(old_tmp[2], tmp2, d0, t2, d, n as int, i0, j0 + 2, m);
            lemma_lanes_step(old_tmp[3], tmp3, d1, t0, d, n as int, i0 + 1, j0, m);
            lemma_lanes_step(old_tmp[4], tmp4, d1, t1, d, n as int, i0 + 1, j0 + 1, m);
            lemma_lanes_step(old_tmp[5], tmp5, d1, t2, d, n as int, i0 + 1, j0 + 2, m);
            lemma_lanes_step(old_tmp[6], tmp6, d2, t0, d, n as int, i0 + 2, j0, m);
            lemma_lanes_step(old_tmp[7], tmp7, d2, t1, d, n as int, i0 + 2, j0 + 1, m);
            lemma_lanes_step(old_tmp[8], tmp8, d2, t2, d, n as int, i0 + 2, j0 + 2, m);
        }
    }
    let tmp = [tmp0, tmp1, tmp2, tmp3, tmp4, tmp5, tmp6, tmp7, tmp8];
    let ghost r0 = r@;
    for block_i in 0..BLOCK_HEIGHT
        invariant
            r@.len() == n * n,
            r0.len() == n * n,
            n * n <= usize::MAX,
            n + 1024 <= usize::MAX,
            i0 == i * 3,
            j0 == j * 3,
            i < (n + 2) / 3,
            j < (n + 2) / 3,
            vecs_per_row == (n + 7) / 8,
            forall|k: int|
                0 <= k < 9 ==> lanes_acc(#[trigger] tmp[k], d, n as int, i0 + k / 3, j0 + k % 3, vecs_per_row as int),
            forall|p: int|
                0 <= p < n * n ==> if in_block(p / (n as int), p % (n as int), i0, j0, 3) && p / (n as int)
                    < i0 + block_i {
                    #[trigger] r@[p] == min_plus(d, n as int, p / (n as int), p % (n as int))
                } else {
                    r@[p] == r0[p]
                },
    {
        for block_j in 0..BLOCK_HEIGHT
            invariant
                block_i < 3,
                r@.len() == n * n,
                r0.len() == n * n,
                n * n <= usize::MAX,
                n + 1024 <= usize::MAX,
                i0 == i * 3,
                j0 == j * 3,
                i < (n + 2) / 3,
                j < (n + 2) / 3,
                vecs_per_row == (n + 7) / 8,
                forall|k: int|
                    0 <= k < 9 ==> lanes_acc(#[trigger] tmp[k], d, n as int, i0 + k / 3, j0 + k % 3, vecs_per_row as int),
                forall|p: int|
                    0 <= p < n * n ==> if in_block(p / (n as int), p % (n as int), i0, j0, 3) && (p / (n as int)
                        < i0 + block_i || (p / (n as int) == i0 + block_i && p % (n as int) < j0 + block_j)) {
                        #[trigger] r@[p] == min_plus(d, n as int, p / (n as int), p % (n as int))
                    } else {
                        r@[p] == r0[p]
                    },
        {
            let res_i = i * BLOCK_HEIGHT + block_i;
            let res_j = j * BLOCK_HEIGHT + block_j;
            if res_i < n && res_j < n {
                proof {
                    lemma_row_major(res_i as int, res_j as int, n as int);
                    lemma_row_major_bound(res_i as int, res_j as int, n as int, n as int);
                    assert(lanes_acc(tmp[block_i * 3 + block_j], d, n as int, i0 + block_i, j0 + block_j, vecs_per_row as int));
                }
                let v = reduce_lanes(tmp[block_i * BLOCK_HEIGHT + block_j], Ghost(d), n, res_i, res_j, Ghost(vecs_per_row as int));
                r.set(res_i * n + res_j, v);
            }
            proof {
                assert forall|p: int| 0 <= p < n * n implies if in_block(p / (n as int), p % (n as int), i0, j0, 3) && (p
                    / (n as int) < i0 + block_i || (p / (n as int) == i0 + block_i && p % (n as int) < j0 + block_j + 1)) {
                    #[trigger] r@[p] == min_plus(d, n as int, p / (n as int), p % (n as int))
                } else {
                    r@[p] == r0[p]
                } by {
                    lemma_row_major_split(p, n as int, n as int);
                    if res_i < n && res_j < n {
                        lemma_row_major(res_i as int, res_j as int, n as int);
                    }
                }
            }
        }
    }
}

/// Writes the min-plus product of the `n x n` matrix `d` with itself into
/// `r`; the matrix has at least one row.
pub fn step(r: &mut Vec<u32>, d: &Vec<u32>, n: usize)
    requires
        n >= 1,
        old(r)@.len() == n * n,
        d@.len() == n * n,
    ensures
        is_product(final(r)@, d@, n as int),
{
    assert(n * n <= usize::MAX) by {
        let len = d.len();
    }
    proof {
        lemma_dim_fits(n as int);
        lemma_filled_none(r@, d@, n as int);
    }
    let blocks_per_col = (n + BLOCK_HEIGHT - 1) / BLOCK_HEIGHT;
    let padded_height = BLOCK_HEIGHT * blocks_per_col;
    let (vd, vt) = pack_rows(d, n, padded_height);
    for i in 0..blocks_per_col
        invariant
            n * n <= usize::MAX,
            n + 1024 <= usize::MAX,
            blocks_per_col == (n + 2) / 3,
            r@.len() == n * n,
            d@.len() == n * n,
            is_row_packing(vd@, vt@, d@, n as int, 3 * ((n + 2) / 3), (n + 7) / 8),
            filled(r@, d@, n as int, |a: int, b: int| a < i * 3),
    {
        proof {
            lemma_filled_weaken(r@, d@, n as int, |a: int, b: int| a < i * 3, |a: int, b: int| a < i * 3 || (a < i * 3 + 3 && b < 0));
        }
        for j in 0..blocks_per_col
            invariant
                n * n <= usize::MAX,
                n + 1024 <= usize::MAX,
                blocks_per_col == (n + 2) / 3,
                i < blocks_per_col,
                r@.len() == n * n,
                d@.len() == n * n,
                is_row_packing(vd@, vt@, d@, n as int, 3 * ((n + 2) / 3), (n + 7) / 8),
                filled(r@, d@, n as int, |a: int, b: int| a < i * 3 || (a < i * 3 + 3 && b < j * 3)),
        {
            let ghost before = r@;
            step_block(r, &vd, &vt, n, i, j, Ghost(d@));
            proof {
                lemma_filled_block(
                    before,
                    r@,
                    d@,
                    n as int,
                    |a: int, b: int| a < i * 3 || (a < i * 3 + 3 && b < j * 3),
                    |a: int, b: int| a < i * 3 || (a < i * 3 + 3 && b < j * 3 + 3),
                    i * 3,
                    j * 3,
                    3,
                );
            }
        }
        proof {
            lemma_filled_weaken(r@, d@, n as int, |a: int, b: int| a < i * 3 || (a < i * 3 + 3 && b < blocks_per_col * 3), |a: int, b: int| a < i * 3 + 3);
        }
    }
    proof {
        lemma_filled_weaken(r@, d@, n as int, |a: int, b: int| a < blocks_per_col * 3, |a: int, b: int| a < n);
        lemma_filled_product(r@, d@, n as int, |a: int, b: int| a < n);
    }
}

} // verus!
