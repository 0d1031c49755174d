//! Vertical packing and 8 x 8 tiles: one vector covers eight rows of a
//! column, and eight accumulators produce 64 cells of the product per pair
//! of vector rows.
use vstd::prelude::*;
use crate::matrix::{filled, in_tile, is_product, lemma_dim_fits, lemma_filled_none, lemma_filled_product,
    lemma_filled_tile, lemma_filled_weaken};
use crate::packing::{is_vertical_stripe, pack_vertical_stripe};
use crate::simd::{U32x8, U32X8_LENGTH};
use crate::tile::{Tile, accumulate, finish, lemma_finish_ready, lemma_tile_step, tile_acc, tile_infty,
    write_tile};

verus! {

/// Computes the 8 x 8 block of the product whose corner is `(8 iv, 8 jv)`
/// and writes the part of it that lies in the matrix into `r`.
pub fn step_block(
    r: &mut Vec<u32>,
    vd: &Vec<Vec<U32x8>>,
    vt: &Vec<Vec<U32x8>>,
    n: usize,
    iv: usize,
    jv: usize,
    Ghost(d): Ghost<Seq<u32>>,
)
    requires
        old(r)@.len() == n * n,
        d.len() == n * n,
        n * n <= usize::MAX,
        iv < (n + 7) / 8,
        jv < (n + 7) / 8,
        is_vertical_stripe(vd@, vt@, d, n as int, 0, n as int),
    ensures
        final(r)@.len() == n * n,
        forall|p: int|
            0 <= p < n * n ==> if in_tile(p / (n as int), p % (n as int), iv * 8, jv * 8) {
                #[trigger] final(r)@[p] == crate::matrix::min_plus(d, n as int, p / (n as int), p % (n as int))
            } else {
                final(r)@[p] == old(r)@[p]
            },
{
    proof {
        lemma_dim_fits(n as int);
    }
    let vd_row = &vd[iv];
    let vt_row = &vt[jv];
    let mut tmp: Tile = tile_infty();
    for c in 0..n
        invariant
            vd_row@.len() == n,
            vt_row@.len() == n,
            *vd_row == vd@[iv as int],
            *vt_row == vt@[jv as int],
            iv < vd@.len(),
            jv < vt@.len(),
            is_vertical_stripe(vd@, vt@, d, n as int, 0, n as int),
            tile_acc(tmp, d, n as int, iv * 8, jv * 8, c as int),
    {
        let d0 = vd_row[c];
        let t0 = vt_row[c];
        let next = accumulate(tmp, d0, t0);
        proof {
            lemma_tile_step(tmp, next, d0, t0, d, n as int, iv * 8, jv * 8, c as int);
        }
        tmp = next;
    }
    let out = finish(tmp);
    proof {
        lemma_finish_ready(tmp, out, d, n as int, iv * 8, jv * 8, n as int);
    }
    write_tile(r, &out, n, iv * U32X8_LENGTH, jv * U32X8_LENGTH, Ghost(d));
}

/// Writes the min-plus product of the `n x n` matrix `d` with itself into
/// `r`; the matrix has at least one row.
pub fn step(r: &mut Vec<u32>, d: &Vec<u32>, n: usize)
    requires
        n >= 1,
        old(r)@.len() == n * n,
        d@.len() == n * n,
    ensures
        is_product(final(r)@, d@, n as int),
{
    assert(n * n <= usize::MAX) by {
        let len = d.len();
    }
    proof {
        lemma_dim_fits(n as int);
        lemma_filled_none(r@, d@, n as int);
    }
    let vecs_per_col = (n + U32X8_LENGTH - 1) / U32X8_LENGTH;
    let (vd, vt) = pack_vertical_stripe(d, n, 0, n);
    for iv in 0..vecs_per_col
        invariant
            n * n <= usize::MAX,
            n + 1024 <= usize::MAX,
            vecs_per_col == (n + 7) / 8,
            r@.len() == n * n,
            d@.len() == n * n,
            is_vertical_stripe(vd@, vt@, d@, n as int, 0, n as int),
            filled(r@, d@, n as int, |a: int, b: int| a < iv * 8),
    {
        proof {
            lemma_filled_weaken(r@, d@, n as int, |a: int, b: int| a < iv * 8, |a: int, b: int| a < iv * 8 || (a < iv * 8 + 8 && b < 0));
        }
        for jv in 0..vecs_per_col
            invariant
                n * n <= usize::MAX,
                n + 1024 <= usize::MAX,
                vecs_per_col == (n + 7) / 8,
                iv < vecs_per_col,
                r@.len() == n * n,
                d@.len() == n * n,
                is_vertical_stripe(vd@, vt@, d@, n as int, 0, n as int),
                filled(r@, d@, n as int, |a: int, b: int| a < iv * 8 || (a < iv * 8 + 8 && b < jv * 8)),
        {
            let ghost before = r@;
            step_block(r, &vd, &vt, n, iv, jv, Ghost(d@));
            proof {
                lemma_filled_tile(
                    before,
                    r@,
                    d@,
                    n as int,
                    |a: int, b: int| a < iv * 8 || (a < iv * 8 + 8 && b < jv * 8),
                    |a: int, b: int| a < iv * 8 || (a < iv * 8 + 8 && b < jv * 8 + 8),
                    iv * 8,
                    jv * 8,
                );
            }
        }
        proof {
            lemma_filled_weaken(r@, d@, n as int, |a: int, b: int| a < iv * 8 || (a < iv * 8 + 8 && b < vecs_per_col * 8), |a: int, b: int| a < iv * 8 + 8);
        }
    }
    proof {
        lemma_filled_weaken(r@, d@, n as int, |a: int, b: int| a < vecs_per_col * 8, |a: int, b: int| a < n);
        lemma_filled_product(r@, d@, n as int, |a: int, b: int| a < n);
    }
}

} // verus!
