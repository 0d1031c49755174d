//! Eight-lane weight vectors and the handful of lane-wise operations the
//! kernels are written in.
use vstd::prelude::*;
use crate::tools::{INF, wadd, wmin, plus};

verus! {

/// Eight weights that the kernels treat as one register.
pub type U32x8 = [u32; 8];

/// Lanes per vector.
pub const U32X8_LENGTH: usize = 8;

/// The lane reached from lane `a` by flipping the bits of `b`.
pub open spec fn lane_xor(a: int, b: int) -> int {
    ((a as u8) ^ (b as u8)) as int
}

/// The algebra of `lane_xor` on lane numbers.
pub proof fn lemma_lane_xor(a: int, b: int, c: int)
    requires
        0 <= a < 8,
        0 <= b < 8,
        0 <= c < 8,
    ensures
        0 <= lane_xor(a, b) < 8,
        lane_xor(a, b) == lane_xor(b, a),
        lane_xor(lane_xor(a, b), b) == a,
        lane_xor(lane_xor(a, b), c) == lane_xor(a, lane_xor(b, c)),
        lane_xor(a, 0) == a,
        lane_xor(a, a) == 0,
{
    let x = a as u8;
    let y = b as u8;
    let z = c as u8;
    assert(x ^ y < 8 && x ^ y == y ^ x && (x ^ y) ^ y == x && (x ^ y) ^ z == x ^ (y ^ z) && x ^ 0
        == x && x ^ x == 0) by (bit_vector)
        requires
            x < 8,
            y < 8,
            z < 8,
    ;
}

pub proof fn lemma_xor_table()
    ensures
        lane_xor(0, 1) == 1 && lane_xor(1, 1) == 0 && lane_xor(2, 1) == 3 && lane_xor(3, 1) == 2,
        lane_xor(4, 1) == 5 && lane_xor(5, 1) == 4 && lane_xor(6, 1) == 7 && lane_xor(7, 1) == 6,
        lane_xor(0, 2) == 2 && lane_xor(1, 2) == 3 && lane_xor(2, 2) == 0 && lane_xor(3, 2) == 1,
        lane_xor(4, 2) == 6 && lane_xor(5, 2) == 7 && lane_xor(6, 2) == 4 && lane_xor(7, 2) == 5,
        lane_xor(0, 4) == 4 && lane_xor(1, 4) == 5 && lane_xor(2, 4) == 6 && lane_xor(3, 4) == 7,
        lane_xor(4, 4) == 0 && lane_xor(5, 4) == 1 && lane_xor(6, 4) == 2 && lane_xor(7, 4) == 3,
{
    assert(0u8 ^ 1u8 == 1u8 && 1u8 ^ 1u8 == 0u8 && 2u8 ^ 1u8 == 3u8 && 3u8 ^ 1u8 == 2u8 && 4u8 ^ 1u8
        == 5u8 && 5u8 ^ 1u8 == 4u8 && 6u8 ^ 1u8 == 7u8 && 7u8 ^ 1u8 == 6u8) by (bit_vector);
    assert(0u8 ^ 2u8 == 2u8 && 1u8 ^ 2u8 == 3u8 && 2u8 ^ 2u8 == 0u8 && 3u8 ^ 2u8 == 1u8 && 4u8 ^ 2u8
        == 6u8 && 5u8 ^ 2u8 == 7u8 && 6u8 ^ 2u8 == 4u8 && 7u8 ^ 2u8 == 5u8) by (bit_vector);
    assert(0u8 ^ 4u8 == 4u8 && 1u8 ^ 4u8 == 5u8 && 2u8 ^ 4u8 == 6u8 && 3u8 ^ 4u8 == 7u8 && 4u8 ^ 4u8
        == 0u8 && 5u8 ^ 4u8 == 1u8 && 6u8 ^ 4u8 == 2u8 && 7u8 ^ 4u8 == 3u8) by (bit_vector);
}

/// `^` on lane numbers held in a `usize` is `lane_xor`.
pub proof fn lemma_usize_xor(x: usize, y: usize)
    requires
        x < 8,
        y < 8,
    ensures
        (x ^ y) < 8,
        (x ^ y) as int == lane_xor(x as int, y as int),
{
    assert((x ^ y) < 8 && ((x ^ y) as u8) == ((x as u8) ^ (y as u8))) by (bit_vector)
        requires
            x < 8,
            y < 8,
    ;
}

/// Eight `INF` lanes.
pub fn f32x8_infty() -> (r: U32x8)
    ensures
        forall|l: int| 0 <= l < 8 ==> r[l] == INF,
{
    [INF; 8]
}


/// Lane-wise sum.
pub fn add(v: U32x8, w: U32x8) -> (r: U32x8)
    ensures
        forall|l: int| 0 <= l < 8 ==> r[l] == wadd(v[l], w[l]),
{
    [
        plus(v[0], w[0]),
        plus(v[1], w[1]),
        plus(v[2], w[2]),
        plus(v[3], w[3]),
        plus(v[4], w[4]),
        plus(v[5], w[5]),
        plus(v[6], w[6]),
        plus(v[7], w[7]),
    ]
}

/// Lane-wise minimum.
pub fn min(v: U32x8, w: U32x8) -> (r: U32x8)
    ensures
        forall|l: int| 0 <= l < 8 ==> r[l] == wmin(v[l], w[l]),
{
    [
        crate::tools::min(v[0], w[0]),
        crate::tools::min(v[1], w[1]),
        crate::tools::min(v[2], w[2]),
        crate::tools::min(v[3], w[3]),
        crate::tools::min(v[4], w[4]),
        crate::tools::min(v[5], w[5]),
        crate::tools::min(v[6], w[6]),
        crate::tools::min(v[7], w[7]),
    ]
}

/// The lowest lane of the register: lane 7, since `from_slice` loads its
/// first element into the highest lane and its last into the lowest.
pub fn lowestf32(v: U32x8) -> (r: u32)
    ensures
        r == v[7],
{
    v[7]
}

/// The vector whose lane `l` is `s[l]`.
pub fn from_slice(s: &[u32]) -> (r: U32x8)
    requires
        s@.len() == 8,
    ensures
        r@ == s@,
{
    let r: U32x8 = [s[0], s[1], s[2], s[3], s[4], s[5], s[6], s[7]];
    assert(r@ =~= s@);
    r
}

/// Exchanges adjacent groups of `width` lanes: `width` 1 gives lanes
/// `[1, 0, 3, 2, 5, 4, 7, 6]`, 2 gives `[2, 3, 0, 1, 6, 7, 4, 5]` and
/// 4 gives `[4, 5, 6, 7, 0, 1, 2, 3]`.
pub fn swap(v: U32x8, width: i8) -> (r: U32x8)
    requires
        width == 1 || width == 2 || width == 4,
    ensures
        forall|l: int| 0 <= l < 8 ==> r[l] == v[#[trigger] lane_xor(l, width as int)],
{
    proof {
        lemma_xor_table();
    }
    if width == 1 {
        [v[1], v[0], v[3], v[2], v[5], v[4], v[7], v[6]]
    } else if width == 2 {
        [v[2], v[3], v[0], v[1], v[6], v[7], v[4], v[5]]
    } else {
        [v[4], v[5], v[6], v[7], v[0], v[1], v[2], v[3]]
    }
}

/// Lane `i`, read from the lowest lane (lane 7) after the swaps that bring it there.
pub fn extract(v: U32x8, i: u8) -> (r: u32)
    requires
        i < 8,
    ensures
        r == v[i as int],
{
    proof {
        lemma_xor_table();
    }
    let permuted = if i == 7 {
        v
    } else if i == 6 {
        swap(v, 1)
    } else if i == 5 {
        swap(v, 2)
    } else if i == 4 {
        swap(swap(v, 1), 2)
    } else if i == 3 {
        swap(v, 4)
    } else if i == 2 {
        swap(swap(v, 1), 4)
    } else if i == 1 {
        swap(swap(v, 2), 4)
    } else {
        swap(swap(swap(v, 1), 2), 4)
    };
    lowestf32(permuted)
}

/// The smallest lane, by three rounds of swap and minimum that leave it in
/// every lane.
pub fn horizontal_min(v: U32x8) -> (r: u32)
    ensures
        forall|l: int| 0 <= l < 8 ==> r <= #[trigger] v[l],
        exists|l: int| 0 <= l < 8 && r == #[trigger] v[l],
{
    proof {
        lemma_xor_table();
    }
    let min_1 = min(swap(v, 1), v);
    let min_2 = min(swap(min_1, 2), min_1);
    let min_4 = min(swap(min_2, 4), min_2);
    let r = lowestf32(min_4);
    assert(r == wmin(wmin(wmin(v[0], v[1]), wmin(v[2], v[3])), wmin(wmin(v[4], v[5]), wmin(v[6], v[7]))));
    assert(forall|l: int| 0 <= l < 8 ==> r <= #[trigger] v[l]);
    if r == v[0] {
        assert(r == v[0]);
    } else if r == v[1] {
        assert(r == v[1]);
    } else if r == v[2] {
        assert(r == v[2]);
    } else if r == v[3] {
        assert(r == v[3]);
    } else if r == v[4] {
        assert(r == v[4]);
    } else if r == v[5] {
        assert(r == v[5]);
    } else if r == v[6] {
        assert(r == v[6]);
    } else {
        assert(r == v[7]);
    }
    r
}

} // verus!
