//! Eight lanes at a time: the row of `D` and the column of `D` that meet in
//! a cell are walked as vectors of eight consecutive positions, and the
//! eight partial minima are reduced at the end.
use vstd::prelude::*;
use crate::matrix::{filled, is_product, lemma_filled_none, lemma_filled_product, lemma_filled_set,
    lemma_filled_weaken, lemma_row_major_bound, min_plus};
use crate::packing::{is_row_packing, lanes_acc, lemma_lanes_step, pack_rows, reduce_lanes};
use crate::simd;
use crate::simd::U32x8;

verus! {

/// `R[i, j]` from row `i` of `vd` and row `j` of `vt`.
pub fn step_cell(vd: &Vec<Vec<U32x8>>, vt: &Vec<Vec<U32x8>>, n: usize, i: usize, j: usize, Ghost(d): Ghost<Seq<u32>>) -> (v: u32)
    requires
        i < n,
        j < n,
        is_row_packing(vd@, vt@, d, n as int, n as int, (n + 7) / 8),
    ensures
        v == min_plus(d, n as int, i as int, j as int),
{
    let vd_row = &vd[i];
    let vt_row = &vt[j];
    let vecs_per_row = vd_row.len();
    let mut tmp = simd::f32x8_infty();
    for c in 0..vecs_per_row
        invariant
            i < n,
            j < n,
            vecs_per_row == (n + 7) / 8,
            is_row_packing(vd@, vt@, d, n as int, n as int, (n + 7) / 8),
            *vd_row == vd@[i as int],
            *vt_row == vt@[j as int],
            lanes_acc(tmp, d, n as int, i as int, j as int, c as int),
    {
        let x = vd_row[c];
        let y = vt_row[c];
        let next = simd::min(tmp, simd::add(x, y));
        proof {
            lemma_lanes_step(tmp, next, x, y, d, n as int, i as int, j as int, c as int);
        }
        tmp = next;
    }
    reduce_lanes(tmp, Ghost(d), n, i, j, Ghost(vecs_per_row as int))
}

/// Writes the min-plus product of the `n x n` matrix `d` with itself into
/// `r`; the matrix has at least one row.
pub fn step(r: &mut Vec<u32>, d: &Vec<u32>, n: usize)
    requires
        n >= 1,
        old(r)@.len() == n * n,
        d@.len() == n * n,
    ensures
        is_product(final(r)@, d@, n as int),
{
    assert(n * n <= usize::MAX) by {
        let len = d.len();
    }
    proof {
        lemma_filled_none(r@, d@, n as int);
    }
    let (vd, vt) = pack_rows(d, n, n);
    for i in 0..n
        invariant
            n * n <= usize::MAX,
            r@.len() == n * n,
            d@.len() == n * n,
            is_row_packing(vd@, vt@, d@, n as int, n as int, (n + 7) / 8),
            filled(r@, d@, n as int, |a: int, b: int| a < i),
    {
        proof {
            lemma_filled_weaken(r@, d@, n as int, |a: int, b: int| a < i, |a: int, b: int| a < i || (a == i && b < 0));
        }
        for j in 0..n
            invariant
                n * n <= usize::MAX,
                0 <= i < n,
                r@.len() == n * n,
                d@.len() == n * n,
                is_row_packing(vd@, vt@, d@, n as int, n as int, (n + 7) / 8),
                filled(r@, d@, n as int, |a: int, b: int| a < i || (a == i && b < j)),
        {
            let v = step_cell(&vd, &vt, n, i, j, Ghost(d@));
            proof {
                lemma_row_major_bound(i as int, j as int, n as int, n as int);
                lemma_filled_set(
                    r@,
                    d@,
                    n as int,
                    |a: int, b: int| a < i || (a == i && b < j),
                    |a: int, b: int| a < i || (a == i && b < j + 1),
                    i as int,
                    j as int,
                    v,
                );
            }
            r.set(i * n + j, v);
        }
        proof {
            lemma_filled_weaken(r@, d@, n as int, |a: int, b: int| a < i || (a == i && b < n), |a: int, b: int| a < i + 1);
        }
    }
    proof {
        lemma_filled_product(r@, d@, n as int, |a: int, b: int| a < n);
    }
}

} // verus!
