//! The Morton (Z-order) schedule of the pairs of vector rows: consecutive
//! pairs in it lie close together in both coordinates.
use vstd::prelude::*;
use rayon::slice::ParallelSliceMut;
use crate::matrix::{lemma_row_major_bound};
use crate::tools::{is_interleaving, z_encode};

verus! {

/// `a <= b` in the order of tuples: by the first field, then the second,
/// then the third.
pub open spec fn triple_le(a: (usize, usize, usize), b: (usize, usize, usize)) -> bool {
    a.0 < b.0 || (a.0 == b.0 && (a.1 < b.1 || (a.1 == b.1 && a.2 <= b.2)))
}

/// `e` is `(key, i, j)` for a pair `i, j < vecs` and its Morton key.
pub open spec fn is_schedule_entry(e: (usize, usize, usize), vecs: int) -> bool {
    &&& e.1 < vecs
    &&& e.2 < vecs
    &&& e.0 <= u32::MAX
    &&& is_interleaving(e.0 as u32, e.1 as u32, e.2 as u32)
}

/// Some entry of `s` is for the pair `(i, j)`.
pub open spec fn has_pair(s: Seq<(usize, usize, usize)>, i: int, j: int) -> bool {
    exists|q: int| 0 <= q < s.len() && #[trigger] s[q].1 == i && s[q].2 == j
}

/// `s` lists every pair of `[0, vecs)` with its Morton key, in ascending
/// order of the keys.
pub open spec fn is_schedule(s: Seq<(usize, usize, usize)>, vecs: int) -> bool {
    &&& s.len() == vecs * vecs
    &&& forall|q: int| 0 <= q < s.len() ==> is_schedule_entry(#[trigger] s[q], vecs)
    &&& forall|i: int, j: int| 0 <= i < vecs && 0 <= j < vecs ==> #[trigger] has_pair(s, i, j)
    &&& forall|a: int, b: int| 0 <= a < b < s.len() ==> triple_le(#[trigger] s[a], #[trigger] s[b])
}

/// Relies on rayon's `ParallelSliceMut::par_sort_unstable`: the entries are
/// permuted into ascending order of the tuples.
#[verifier::external_body]
fn par_sort_unstable(s: &mut Vec<(usize, usize, usize)>)
    ensures
        final(s)@.to_multiset() == old(s)@.to_multiset(),
        forall|a: int, b: int|
            0 <= a < b < final(s)@.len() ==> triple_le(#[trigger] final(s)@[a], #[trigger] final(s)@[b]),
{
    s.par_sort_unstable();
}

/// All pairs of `[0, vecs_per_col)`, each with its Morton key, sorted by key.
pub fn morton_schedule(vecs_per_col: usize) -> (s: Vec<(usize, usize, usize)>)
    requires
        vecs_per_col * vecs_per_col <= usize::MAX,
        vecs_per_col <= u32::MAX,
    ensures
        is_schedule(s@, vecs_per_col as int),
{
    let mut row_pairs: Vec<(usize, usize, usize)> = Vec::new();
    for i in 0..vecs_per_col
        invariant
            vecs_per_col * vecs_per_col <= usize::MAX,
            vecs_per_col <= u32::MAX,
            row_pairs@.len() == i * vecs_per_col,
            forall|q: int| 0 <= q < row_pairs@.len() ==> is_schedule_entry(#[trigger] row_pairs@[q], vecs_per_col as int),
            forall|a: int, b: int|
                0 <= a < i && 0 <= b < vecs_per_col ==> #[trigger] row_pairs@[a * vecs_per_col + b].1 == a
                    && row_pairs@[a * vecs_per_col + b].2 == b,
    {
        for j in 0..vecs_per_col
            invariant
                vecs_per_col * vecs_per_col <= usize::MAX,
                vecs_per_col <= u32::MAX,
                i < vecs_per_col,
                row_pairs@.len() == i * vecs_per_col + j,
                forall|q: int| 0 <= q < row_pairs@.len() ==> is_schedule_entry(#[trigger] row_pairs@[q], vecs_per_col as int),
                forall|a: int, b: int|
                    (0 <= a < i && 0 <= b < vecs_per_col) || (a == i && 0 <= b < j) ==> #[trigger] row_pairs@[a
                        * vecs_per_col + b].1 == a && row_pairs@[a * vecs_per_col + b].2 == b,
        {
            proof {
                lemma_row_major_bound(i as int, j as int, vecs_per_col as int, vecs_per_col as int);
            }
            let ghost old_pairs = row_pairs@;
            let z = z_encode(i as u32, j as u32);
            row_pairs.push((z as usize, i, j));
            proof {
                assert forall|a: int, b: int|
                    (0 <= a < i && 0 <= b < vecs_per_col) || (a == i && 0 <= b < j + 1) implies #[trigger] row_pairs@[a
                    * vecs_per_col + b].1 == a && row_pairs@[a * vecs_per_col + b].2 == b by {
                    if a < i {
                        lemma_row_major_bound(a, b, vecs_per_col as int, i as int);
                        assert(row_pairs@[a * vecs_per_col + b] == old_pairs[a * vecs_per_col + b]);
                    } else if b < j {
                        assert(row_pairs@[a * vecs_per_col + b] == old_pairs[a * vecs_per_col + b]);
                    }
                }
            }
        }
        assert(i * vecs_per_col + vecs_per_col == (i + 1) * vecs_per_col) by (nonlinear_arith);
    }
    let ghost before = row_pairs@;
    par_sort_unstable(&mut row_pairs);
    proof {
        before.to_multiset_ensures();
        row_pairs@.to_multiset_ensures();
        assert forall|q: int| 0 <= q < row_pairs@.len() implies is_schedule_entry(
            #[trigger] row_pairs@[q],
            vecs_per_col as int,
        ) by {
            assert(row_pairs@.contains(row_pairs@[q]));
            assert(before.to_multiset().count(row_pairs@[q]) > 0);
        }
        assert forall|i: int, j: int| 0 <= i < vecs_per_col && 0 <= j < vecs_per_col implies #[trigger] has_pair(
            row_pairs@,
            i,
            j,
        ) by {
            lemma_row_major_bound(i, j, vecs_per_col as int, vecs_per_col as int);
            let e = before[i * vecs_per_col + j];
            assert(before.contains(e));
            assert(row_pairs@.to_multiset().count(e) > 0);
            assert(row_pairs@.contains(e));
        }
    }
    row_pairs
}

} // verus!
