//! Cache blocking: the columns are taken in vertical stripes whose packing
//! fits in cache, and the blocks of the product are visited in Morton order,
//! each keeping its accumulators from one stripe to the next.
use vstd::prelude::*;
use crate::matrix::{filled, in_tile, is_product, lemma_dim_fits, lemma_filled_none, lemma_filled_product,
    lemma_filled_tile, lemma_filled_weaken};
use crate::packing::{is_vertical_stripe, pack_vertical_stripe};
use crate::schedule::{has_pair, is_schedule, is_schedule_entry, morton_schedule};
use crate::simd::{U32x8, U32X8_LENGTH};
use crate::tile::{Tile, accumulate, finish, lemma_finish_ready, lemma_tile_step, tile_acc, tile_infty,
    write_tile};

verus! {

/// How many columns one stripe covers.
pub const COLS_PER_STRIPE: usize = 500;

/// Cell `(a, b)` lies in the block of one of the first `q` entries of the schedule `s`.
pub open spec fn covered(s: Seq<(usize, usize, usize)>, q: int, a: int, b: int) -> bool {
    exists|p: int| 0 <= p < q && in_tile(a, b, #[trigger] s[p].1 * 8, s[p].2 * 8)
}

/// Folds the stripe packed in `vd` and `vt`, which starts at column
/// `col_begin`, into the accumulators `prev` of the block of vector rows
/// `(i, j)`.
pub fn step_partial_block(
    prev: Tile,
    vd: &Vec<Vec<U32x8>>,
    vt: &Vec<Vec<U32x8>>,
    n: usize,
    i: usize,
    j: usize,
    col_begin: usize,
    Ghost(d): Ghost<Seq<u32>>,
) -> (r: Tile)
    requires
        i < vd@.len(),
        j < vt@.len(),
        col_begin + COLS_PER_STRIPE <= usize::MAX,
        is_vertical_stripe(vd@, vt@, d, n as int, col_begin as int, COLS_PER_STRIPE as int),
        tile_acc(prev, d, n as int, i * 8, j * 8, col_begin as int),
    ensures
        tile_acc(r, d, n as int, i * 8, j * 8, col_begin + COLS_PER_STRIPE),
{
    let vd_row = &vd[i];
    let vt_row = &vt[j];
    let mut tmp = prev;
    for c in 0..COLS_PER_STRIPE
        invariant
            vd_row@.len() == COLS_PER_STRIPE,
            vt_row@.len() == COLS_PER_STRIPE,
            *vd_row == vd@[i as int],
            *vt_row == vt@[j as int],
            i < vd@.len(),
            j < vt@.len(),
            is_vertical_stripe(vd@, vt@, d, n as int, col_begin as int, COLS_PER_STRIPE as int),
            tile_acc(tmp, d, n as int, i * 8, j * 8, col_begin + c),
    {
        let d0 = vd_row[c];
        let t0 = vt_row[c];
        let next = accumulate(tmp, d0, t0);
        proof {
            lemma_tile_step(tmp, next, d0, t0, d, n as int, i * 8, j * 8, col_begin + c);
        }
        tmp = next;
    }
    tmp
}

/// Writes the min-plus product of the `n x n` matrix `d` with itself into
/// `r`; the matrix has at least one row.
pub fn step(r: &mut Vec<u32>, d: &Vec<u32>, n: usize)
    requires
        n >= 1,
        old(r)@.len() == n * n,
        d@.len() == n * n,
    ensures
        is_product(final(r)@, d@, n as int),
{
    assert(n * n <= usize::MAX) by {
        let len = d.len();
    }
    proof {
        lemma_dim_fits(n as int);
    }
    let vecs_per_col = (n + U32X8_LENGTH - 1) / U32X8_LENGTH;
    assert(vecs_per_col * vecs_per_col <= n * n) by (nonlinear_arith)
        requires
            vecs_per_col == (n + 7) / 8,
    ;
    let row_pairs = morton_schedule(vecs_per_col);
    let num_blocks = vecs_per_col * vecs_per_col;
    let mut partial_results: Vec<Tile> = Vec::new();
    for q in 0..num_blocks
        invariant
            num_blocks == row_pairs@.len(),
            partial_results@.len() == q,
            forall|p: int|
                0 <= p < q ==> tile_acc(
                    #[trigger] partial_results@[p],
                    d@,
                    n as int,
                    row_pairs@[p].1 * 8,
                    row_pairs@[p].2 * 8,
                    0,
                ),
    {
        partial_results.push(tile_infty());
    }
    let num_vertical_stripes = (n + COLS_PER_STRIPE - 1) / COLS_PER_STRIPE;
    for stripe in 0..num_vertical_stripes
        invariant
            n + 1024 <= usize::MAX,
            d@.len() == n * n,
            vecs_per_col == (n + 7) / 8,
            num_vertical_stripes == (n + 499) / 500,
            is_schedule(row_pairs@, vecs_per_col as int),
            num_blocks == row_pairs@.len(),
            partial_results@.len() == num_blocks,
            forall|p: int|
                0 <= p < num_blocks ==> tile_acc(
                    #[trigger] partial_results@[p],
                    d@,
                    n as int,
                    row_pairs@[p].1 * 8,
                    row_pairs@[p].2 * 8,
                    stripe * COLS_PER_STRIPE,
                ),
    {
        let col_begin = stripe * COLS_PER_STRIPE;
        let (vd, vt) = pack_vertical_stripe(d, n, col_begin, COLS_PER_STRIPE);
        for q in 0..num_blocks
            invariant
                n + 1024 <= usize::MAX,
                stripe < num_vertical_stripes,
                num_vertical_stripes == (n + 499) / 500,
                col_begin == stripe * COLS_PER_STRIPE,
                vecs_per_col == (n + 7) / 8,
                is_vertical_stripe(vd@, vt@, d@, n as int, col_begin as int, COLS_PER_STRIPE as int),
                is_schedule(row_pairs@, vecs_per_col as int),
                num_blocks == row_pairs@.len(),
                partial_results@.len() == num_blocks,
                forall|p: int|
                    0 <= p < num_blocks ==> tile_acc(
                        #[trigger] partial_results@[p],
                        d@,
                        n as int,
                        row_pairs@[p].1 * 8,
                        row_pairs@[p].2 * 8,
                        if p < q {
                            col_begin + COLS_PER_STRIPE
                        } else {
                            col_begin as int
                        },
                    ),
        {
            let (_, i, j) = row_pairs[q];
            proof {
                assert(is_schedule_entry(row_pairs@[q as int], vecs_per_col as int));
            }
            let tmp = step_partial_block(partial_results[q], &vd, &vt, n, i, j, col_begin, Ghost(d@));
            partial_results.set(q, tmp);
        }
    }
    // Scatter the blocks back by their place in the schedule.
    proof {
        lemma_filled_none(r@, d@, n as int);
        lemma_filled_weaken(
            r@,
            d@,
            n as int,
            |a: int, b: int| a < 0,
            |a: int, b: int| covered(row_pairs@, 0, a, b),
        );
        assert(num_vertical_stripes * COLS_PER_STRIPE >= n) by (nonlinear_arith)
            requires
                num_vertical_stripes == (n + 499) / 500,
                COLS_PER_STRIPE == 500,
        ;
    }
    for q in 0..num_blocks
        invariant
            n + 1024 <= usize::MAX,
            n * n <= usize::MAX,
            r@.len() == n * n,
            d@.len() == n * n,
            vecs_per_col == (n + 7) / 8,
            num_vertical_stripes * COLS_PER_STRIPE >= n,
            is_schedule(row_pairs@, vecs_per_col as int),
            num_blocks == row_pairs@.len(),
            partial_results@.len() == num_blocks,
            forall|p: int|
                0 <= p < num_blocks ==> tile_acc(
                    #[trigger] partial_results@[p],
                    d@,
                    n as int,
                    row_pairs@[p].1 * 8,
                    row_pairs@[p].2 * 8,
                    num_vertical_stripes * COLS_PER_STRIPE,
                ),
            filled(r@, d@, n as int, |a: int, b: int| covered(row_pairs@, q as int, a, b)),
    {
        let (_, i, j) = row_pairs[q];
        proof {
            assert(is_schedule_entry(row_pairs@[q as int], vecs_per_col as int));
        }
        let out = finish(partial_results[q]);
        proof {
            lemma_finish_ready(partial_results@[q as int], out, d@, n as int, i * 8, j * 8, num_vertical_stripes * COLS_PER_STRIPE);
        }
        let ghost before = r@;
        write_tile(r, &out, n, i * U32X8_LENGTH, j * U32X8_LENGTH, Ghost(d@));
        proof {
            lemma_filled_tile(
                before,
                r@,
                d@,
                n as int,
                |a: int, b: int| covered(row_pairs@, q as int, a, b),
                |a: int, b: int| covered(row_pairs@, q + 1, a, b),
                i * 8,
                j * 8,
            );
        }
    }
    proof {
        assert forall|a: int, b: int| 0 <= a < n && 0 <= b < n implies #[trigger] covered(row_pairs@, num_blocks as int, a, b) by {
            assert(has_pair(row_pairs@, a / 8, b / 8));
            let p = choose|p: int| 0 <= p < row_pairs@.len() && #[trigger] row_pairs@[p].1 == a / 8 && row_pairs@[p].2 == b / 8;
            assert(in_tile(a, b, row_pairs@[p].1 * 8, row_pairs@[p].2 * 8));
        }
        lemma_filled_weaken(
            r@,
            d@,
            n as int,
            |a: int, b: int| covered(row_pairs@, num_blocks as int, a, b),
            |a: int, b: int| a < n,
        );
        lemma_filled_product(r@, d@, n as int, |a: int, b: int| a < n);
    }
}

} // verus!
