//! Linear reads: `D` is transposed first, so that the row and the column
//! that meet in a cell are both read left to right.
use vstd::prelude::*;
use crate::matrix::{entry, filled, is_product, lemma_filled_none, lemma_filled_product, lemma_filled_set,
    lemma_filled_weaken, lemma_row_major_bound, min_prefix};
use crate::tools::{INF, plus};

verus! {

/// `t` is the transpose of the `n x n` matrix `d`, row by row.
pub open spec fn is_transpose(t: Seq<Vec<u32>>, d: Seq<u32>, n: int) -> bool {
    &&& t.len() == n
    &&& forall|j: int| 0 <= j < n ==> (#[trigger] t[j])@.len() == n
    &&& forall|j: int, i: int| 0 <= j < n && 0 <= i < n ==> #[trigger] t[j]@[i] == entry(d, n, i, j)
}

/// The transpose of `d`: row `j` holds column `j` of `d`.
pub fn transpose(d: &Vec<u32>, n: usize) -> (t: Vec<Vec<u32>>)
    requires
        d@.len() == n * n,
    ensures
        is_transpose(t@, d@, n as int),
{
    assert(n * n <= usize::MAX) by {
        let len = d.len();
    }
    let mut t: Vec<Vec<u32>> = Vec::new();
    for j in 0..n
        invariant
            d@.len() == n * n,
            n * n <= usize::MAX,
            t@.len() == j,
            forall|a: int| 0 <= a < j ==> (#[trigger] t@[a])@.len() == n,
            forall|a: int, i: int| 0 <= a < j && 0 <= i < n ==> #[trigger] t@[a]@[i] == entry(d@, n as int, i, a),
    {
        let mut t_row: Vec<u32> = Vec::new();
        for i in 0..n
            invariant
                d@.len() == n * n,
                n * n <= usize::MAX,
                j < n,
                t_row@.len() == i,
                forall|a: int| 0 <= a < i ==> #[trigger] t_row@[a] == entry(d@, n as int, a, j as int),
        {
            proof {
                lemma_row_major_bound(i as int, j as int, n as int, n as int);
            }
            t_row.push(d[i * n + j]);
        }
        t.push(t_row);
    }
    t
}

/// `R[i, j]` from row `i` of `d` and row `j` of its transpose.
pub fn step_cell(d: &Vec<u32>, t: &Vec<Vec<u32>>, n: usize, i: usize, j: usize) -> (v: u32)
    requires
        d@.len() == n * n,
        i < n,
        j < n,
        is_transpose(t@, d@, n as int),
    ensures
        v == min_prefix(d@, n as int, i as int, j as int, n as int),
{
    assert(n * n <= usize::MAX) by {
        let len = d.len();
    }
    let t_row = &t[j];
    let mut v = INF;
    for k in 0..n
        invariant
            d@.len() == n * n,
            n * n <= usize::MAX,
            i < n,
            j < n,
            is_transpose(t@, d@, n as int),
            *t_row == t@[j as int],
            v == min_prefix(d@, n as int, i as int, j as int, k as int),
    {
        proof {
            lemma_row_major_bound(i as int, k as int, n as int, n as int);
        }
        let x = d[i * n + k];
        let y = t_row[k];
        let z = plus(x, y);
        v = if z < v {
            z
        } else {
            v
        };
    }
    v
}

/// Writes the min-plus product of the `n x n` matrix `d` with itself into
/// `r`; the matrix has at least one row.
pub fn step(r: &mut Vec<u32>, d: &Vec<u32>, n: usize)
    requires
        n >= 1,
        old(r)@.len() == n * n,
        d@.len() == n * n,
    ensures
        is_product(final(r)@, d@, n as int),
{
    assert(n * n <= usize::MAX) by {
        let len = d.len();
    }
    proof {
        lemma_filled_none(r@, d@, n as int);
    }
    let t = transpose(d, n);
    for i in 0..n
        invariant
            n * n <= usize::MAX,
            r@.len() == n * n,
            d@.len() == n * n,
            is_transpose(t@, d@, n as int),
            filled(r@, d@, n as int, |a: int, b: int| a < i),
    {
        proof {
            lemma_filled_weaken(r@, d@, n as int, |a: int, b: int| a < i, |a: int, b: int| a < i || (a == i && b < 0));
        }
        for j in 0..n
            invariant
                n * n <= usize::MAX,
                0 <= i < n,
                r@.len() == n * n,
                d@.len() == n * n,
                is_transpose(t@, d@, n as int),
                filled(r@, d@, n as int, |a: int, b: int| a < i || (a == i && b < j)),
        {
            let v = step_cell(d, &t, n, i, j);
            proof {
                lemma_row_major_bound(i as int, j as int, n as int, n as int);
                lemma_filled_set(
                    r@,
                    d@,
                    n as int,
                    |a: int, b: int| a < i || (a == i && b < j),
                    |a: int, b: int| a < i || (a == i && b < j + 1),
                    i as int,
                    j as int,
                    v,
                );
            }
            r.set(i * n + j, v);
        }
        proof {
            lemma_filled_weaken(r@, d@, n as int, |a: int, b: int| a < i || (a == i && b < n), |a: int, b: int| a < i + 1);
        }
    }
    proof {
        lemma_filled_product(r@, d@, n as int, |a: int, b: int| a < n);
    }
}

} // verus!
