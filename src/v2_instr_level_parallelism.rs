//! Instruction-level parallelism: four independent partial minima, one per
//! position modulo four, so that consecutive steps do not wait on each other.
use vstd::prelude::*;
use crate::matrix::{entry, filled, is_product, lemma_dim_fits, lemma_filled_none, lemma_filled_product,
    lemma_filled_set, lemma_filled_weaken, lemma_lanes_min, lemma_row_major_bound, min_plus,
    strided_prefix};
use crate::tools::{INF, plus};

verus! {

/// Positions per block.
pub const BLOCK_SIZE: usize = 4;

/// `vd` holds the rows of `d` and `vt` those of its transpose, each padded
/// with `INF` to `width` positions.
pub open spec fn is_padded(vd: Seq<Vec<u32>>, vt: Seq<Vec<u32>>, d: Seq<u32>, n: int, width: int) -> bool {
    &&& vd.len() == n
    &&& vt.len() == n
    &&& forall|i: int| 0 <= i < n ==> (#[trigger] vd[i])@.len() == width
    &&& forall|i: int| 0 <= i < n ==> (#[trigger] vt[i])@.len() == width
    &&& forall|i: int, c: int| 0 <= i < n && 0 <= c < width ==> #[trigger] vd[i]@[c] == entry(d, n, i, c)
    &&& forall|i: int, c: int| 0 <= i < n && 0 <= c < width ==> #[trigger] vt[i]@[c] == entry(d, n, c, i)
}

/// The rows of `d` and of its transpose, padded with `INF` to a whole
/// number of blocks.
pub fn pack_padded(d: &Vec<u32>, n: usize) -> (r: (Vec<Vec<u32>>, Vec<Vec<u32>>))
    requires
        d@.len() == n * n,
    ensures
        is_padded(r.0@, r.1@, d@, n as int, (n + 3) / 4 * 4),
{
    proof {
        let len = d.len();
        lemma_dim_fits(n as int);
    }
    let blocks_per_row = (n + BLOCK_SIZE - 1) / BLOCK_SIZE;
    let n_padded = blocks_per_row * BLOCK_SIZE;
    let mut vd: Vec<Vec<u32>> = Vec::new();
    let mut vt: Vec<Vec<u32>> = Vec::new();
    for row in 0..n
        invariant
            d@.len() == n * n,
            n * n <= usize::MAX,
            n_padded == (n + 3) / 4 * 4,
            vd@.len() == row,
            vt@.len() == row,
            forall|i: int| 0 <= i < row ==> (#[trigger] vd@[i])@.len() == n_padded,
            forall|i: int| 0 <= i < row ==> (#[trigger] vt@[i])@.len() == n_padded,
            forall|i: int, c: int| 0 <= i < row && 0 <= c < n_padded ==> #[trigger] vd@[i]@[c] == entry(d@, n as int, i, c),
            forall|i: int, c: int| 0 <= i < row && 0 <= c < n_padded ==> #[trigger] vt@[i]@[c] == entry(d@, n as int, c, i),
    {
        let mut vd_row: Vec<u32> = Vec::new();
        let mut vt_row: Vec<u32> = Vec::new();
        for col in 0..n_padded
            invariant
                d@.len() == n * n,
                n * n <= usize::MAX,
                row < n,
                vd_row@.len() == col,
                vt_row@.len() == col,
                forall|c: int| 0 <= c < col ==> #[trigger] vd_row@[c] == entry(d@, n as int, row as int, c),
                forall|c: int| 0 <= c < col ==> #[trigger] vt_row@[c] == entry(d@, n as int, c, row as int),
        {
            if col < n {
                proof {
                    lemma_row_major_bound(row as int, col as int, n as int, n as int);
                    lemma_row_major_bound(col as int, row as int, n as int, n as int);
                }
                vd_row.push(d[row * n + col]);
                vt_row.push(d[col * n + row]);
            } else {
                vd_row.push(INF);
                vt_row.push(INF);
            }
        }
        vd.push(vd_row);
        vt.push(vt_row);
    }
    (vd, vt)
}

/// `R[i, j]` from row `i` of `vd` and row `j` of `vt`, in four interleaved
/// partial minima.
pub fn step_cell(vd: &Vec<Vec<u32>>, vt: &Vec<Vec<u32>>, n: usize, i: usize, j: usize, Ghost(d): Ghost<Seq<u32>>) -> (v: u32)
    requires
        i < n,
        j < n,
        n + 1024 <= usize::MAX,
        is_padded(vd@, vt@, d, n as int, (n + 3) / 4 * 4),
    ensures
        v == min_plus(d, n as int, i as int, j as int),
{
    let vd_row = &vd[i];
    let vt_row = &vt[j];
    let blocks_per_row = (n + BLOCK_SIZE - 1) / BLOCK_SIZE;
    let mut block: [u32; 4] = [INF; 4];
    for c in 0..blocks_per_row
        invariant
            i < n,
            j < n,
            blocks_per_row == (n + 3) / 4,
            is_padded(vd@, vt@, d, n as int, (n + 3) / 4 * 4),
            *vd_row == vd@[i as int],
            *vt_row == vt@[j as int],
            forall|b: int| 0 <= b < 4 ==> #[trigger] block[b] == strided_prefix(d, n as int, i as int, j as int, b, 4, c as int),
    {
        let ghost before = block;
        for b in 0..BLOCK_SIZE
            invariant
                i < n,
                j < n,
                c < blocks_per_row,
                blocks_per_row == (n + 3) / 4,
                is_padded(vd@, vt@, d, n as int, (n + 3) / 4 * 4),
                *vd_row == vd@[i as int],
                *vt_row == vt@[j as int],
                forall|l: int| 0 <= l < 4 ==> #[trigger] before[l] == strided_prefix(d, n as int, i as int, j as int, l, 4, c as int),
                forall|l: int| 0 <= l < b ==> #[trigger] block[l] == strided_prefix(d, n as int, i as int, j as int, l, 4, c + 1),
                forall|l: int| b <= l < 4 ==> #[trigger] block[l] == before[l],
        {
            let z = plus(vd_row[c * BLOCK_SIZE + b], vt_row[c * BLOCK_SIZE + b]);
            let x = block[b];
            block[b] = if z < x {
                z
            } else {
                x
            };
        }
    }
    let mut res = INF;
    for b in 0..BLOCK_SIZE
        invariant
            forall|l: int| 0 <= l < b ==> res <= #[trigger] block[l],
            res == INF || exists|l: int| 0 <= l < b && res == #[trigger] block[l],
    {
        let x = block[b];
        res = if x < res {
            x
        } else {
            res
        };
    }
    proof {
        if res == INF {
            assert(res == block[0]);
        }
        let l = choose|l: int| 0 <= l < 4 && res == #[trigger] block[l];
        assert(res == strided_prefix(d, n as int, i as int, j as int, l, 4, blocks_per_row as int));
        assert forall|b: int| 0 <= b < 4 implies res <= #[trigger] strided_prefix(d, n as int, i as int, j as int, b, 4, blocks_per_row as int) by {
            assert(res <= block[b]);
        }
        lemma_lanes_min(res, d, n as int, i as int, j as int, 4, blocks_per_row as int);
    }
    res
}

/// Writes the min-plus product of the `n x n` matrix `d` with itself into
/// `r`; the matrix has at least one row.
pub fn step(r: &mut Vec<u32>, d: &Vec<u32>, n: usize)
    requires
        n >= 1,
        old(r)@.len() == n * n,
        d@.len() == n * n,
    ensures
        is_product(final(r)@, d@, n as int),
{
    assert(n * n <= usize::MAX) by {
        let len = d.len();
    }
    proof {
        lemma_dim_fits(n as int);
        lemma_filled_none(r@, d@, n as int);
    }
    let (vd, vt) = pack_padded(d, n);
    for i in 0..n
        invariant
            n * n <= usize::MAX,
            n + 1024 <= usize::MAX,
            r@.len() == n * n,
            d@.len() == n * n,
            is_padded(vd@, vt@, d@, n as int, (n + 3) / 4 * 4),
            filled(r@, d@, n as int, |a: int, b: int| a < i),
    {
        proof {
            lemma_filled_weaken(r@, d@, n as int, |a: int, b: int| a < i, |a: int, b: int| a < i || (a == i && b < 0));
        }
        for j in 0..n
            invariant
                n * n <= usize::MAX,
                n + 1024 <= usize::MAX,
                0 <= i < n,
                r@.len() == n * n,
                d@.len() == n * n,
                is_padded(vd@, vt@, d@, n as int, (n + 3) / 4 * 4),
                filled(r@, d@, n as int, |a: int, b: int| a < i || (a == i && b < j)),
        {
            let v = step_cell(&vd, &vt, n, i, j, Ghost(d@));
            proof {
                lemma_row_major_bound(i as int, j as int, n as int, n as int);
                lemma_filled_set(
                    r@,
                    d@,
                    n as int,
                    |a: int, b: int| a < i || (a == i && b < j),
                    |a: int, b: int| a < i || (a == i && b < j + 1),
                    i as int,
                    j as int,
                    v,
                );
            }
            r.set(i * n + j, v);
        }
        proof {
            lemma_filled_weaken(r@, d@, n as int, |a: int, b: int| a < i || (a == i && b < n), |a: int, b: int| a < i + 1);
        }
    }
    proof {
        lemma_filled_product(r@, d@, n as int, |a: int, b: int| a < n);
    }
}

} // verus!
