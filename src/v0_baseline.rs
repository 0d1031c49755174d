//! The triple loop: for each `(i, j)`, the minimum over `k` of
//! `D[i, k] + D[k, j]`, reading `D` by rows and by columns.
use vstd::prelude::*;
use crate::matrix::{filled, is_product, lemma_filled_product, lemma_row_major_bound, min_prefix, lemma_filled_none, lemma_filled_weaken, lemma_filled_set};
use crate::tools::{INF, min, plus};

verus! {

/// Writes the min-plus product of the `n x n` matrix `d` with itself into
/// `r`; the matrix has at least one row.
pub fn step(r: &mut Vec<u32>, d: &Vec<u32>, n: usize)
    requires
        n >= 1,
        old(r)@.len() == n * n,
        d@.len() == n * n,
    ensures
        is_product(final(r)@, d@, n as int),
{
    let ghost done = |a: int, b: int| a < n;
    assert(n * n <= usize::MAX) by {
        let len = d.len();
    }
    proof {
        lemma_filled_none(r@, d@, n as int);
    }
    for i in 0..n
        invariant
            n * n <= usize::MAX,
            r@.len() == n * n,
            d@.len() == n * n,
            filled(r@, d@, n as int, |a: int, b: int| a < i),
    {
        proof {
            lemma_filled_weaken(r@, d@, n as int, |a: int, b: int| a < i, |a: int, b: int| a < i || (a == i && b < 0));
        }
        for j in 0..n
            invariant
                n * n <= usize::MAX,
                0 <= i < n,
                r@.len() == n * n,
                d@.len() == n * n,
                filled(r@, d@, n as int, |a: int, b: int| a < i || (a == i && b < j)),
        {
            let mut v = INF;
            for k in 0..n
                invariant
                    n * n <= usize::MAX,
                    0 <= i < n,
                    0 <= j < n,
                    d@.len() == n * n,
                    v == min_prefix(d@, n as int, i as int, j as int, k as int),
            {
                proof {
                    lemma_row_major_bound(i as int, k as int, n as int, n as int);
                    lemma_row_major_bound(k as int, j as int, n as int, n as int);
                }
                let x = d[i * n + k];
                let y = d[k * n + j];
                let z = plus(x, y);
                v = min(v, z);
            }
            proof {
                lemma_row_major_bound(i as int, j as int, n as int, n as int);
                lemma_filled_set(
                    r@,
                    d@,
                    n as int,
                    |a: int, b: int| a < i || (a == i && b < j),
                    |a: int, b: int| a < i || (a == i && b < j + 1),
                    i as int,
                    j as int,
                    v,
                );
            }
            r.set(i * n + j, v);
        }
        proof {
            lemma_filled_weaken(r@, d@, n as int, |a: int, b: int| a < i || (a == i && b < n), |a: int, b: int| a < i + 1);
        }
    }
    proof {
        lemma_filled_product(r@, d@, n as int, done);
    }
}

} // verus!
