//! Weights, their saturating sum and minimum, and Morton keys.
use vstd::prelude::*;

verus! {

/// The weight that stands for "no path": the identity of `min`, absorbing in `+`.
pub const INF: u32 = 0xFFFF_FFFFu32;

/// The sum of two weights, saturating at `INF`.
pub open spec fn wadd(x: u32, y: u32) -> u32 {
    if x as int + y as int >= INF as int {
        INF
    } else {
        (x + y) as u32
    }
}

/// The smaller of two weights.
pub open spec fn wmin(x: u32, y: u32) -> u32 {
    if x <= y {
        x
    } else {
        y
    }
}

/// The smaller of two weights.
pub fn min(x: u32, y: u32) -> (r: u32)
    ensures
        r == wmin(x, y),
{
    if x < y {
        x
    } else {
        y
    }
}

/// The sum of two weights; a sum that reaches `INF` is `INF`.
pub fn plus(x: u32, y: u32) -> (r: u32)
    ensures
        r == wadd(x, y),
{
    if x >= INF - y {
        INF
    } else {
        x + y
    }
}

/// Bit `i` of `x`.
pub open spec fn bit(x: u32, i: int) -> u32 {
    (x >> (i as u32)) & 1
}

/// `z` interleaves the low sixteen bits of `x` and `y`: bit `b` of `x` is
/// bit `2 b` of `z`, and bit `b` of `y` is bit `2 b + 1`.
pub open spec fn is_interleaving(z: u32, x: u32, y: u32) -> bool {
    forall|b: int| 0 <= b < 16 ==> bit(z, 2 * b) == #[trigger] bit(x, b) && bit(z, 2 * b + 1) == bit(y, b)
}

proof fn lemma_deposit(z: u32, xb: u32, yb: u32, b: u32, c: u32)
    requires
        b < 16,
        xb <= 1,
        yb <= 1,
        z >> (2 * b) == 0,
    ensures
        c < 2 * b ==> ((z | (xb << (2 * b)) | (yb << (2 * b + 1))) >> c) & 1 == (z >> c) & 1,
        ((z | (xb << (2 * b)) | (yb << (2 * b + 1))) >> (2 * b)) & 1 == xb,
        ((z | (xb << (2 * b)) | (yb << (2 * b + 1))) >> (2 * b + 1)) & 1 == yb,
        b < 15 ==> (z | (xb << (2 * b)) | (yb << (2 * b + 1))) >> (2 * b + 2) == 0,
{
    assert((c < 2 * b ==> ((z | (xb << (2 * b)) | (yb << (2 * b + 1))) >> c) & 1 == (z >> c) & 1)
        && ((z | (xb << (2 * b)) | (yb << (2 * b + 1))) >> (2 * b)) & 1 == xb
        && ((z | (xb << (2 * b)) | (yb << (2 * b + 1))) >> (2 * b + 1)) & 1 == yb
        && (b < 15 ==> (z | (xb << (2 * b)) | (yb << (2 * b + 1))) >> (2 * b + 2) == 0)) by (bit_vector)
        requires
            b < 16,
            xb <= 1,
            yb <= 1,
            z >> (2 * b) == 0,
    ;
}

/// The Morton (Z-order) key of `(x, y)`: the low sixteen bits of `x` in the
/// even bits and those of `y` in the odd bits.
pub fn z_encode(x: u32, y: u32) -> (z: u32)
    ensures
        is_interleaving(z, x, y),
{
    let mut z: u32 = 0;
    let mut b: u32 = 0;
    assert(0u32 >> 0u32 == 0) by (bit_vector);
    while b < 16
        invariant
            b <= 16,
            b < 16 ==> z >> (2 * b) == 0,
            forall|c: int| 0 <= c < b ==> bit(z, 2 * c) == #[trigger] bit(x, c) && bit(z, 2 * c + 1) == bit(y, c),
        decreases 16 - b,
    {
        let xb = (x >> b) & 1;
        let yb = (y >> b) & 1;
        assert(xb <= 1 && yb <= 1) by (bit_vector)
            requires
                xb == (x >> b) & 1,
                yb == (y >> b) & 1,
        ;
        let next = z | (xb << (2 * b)) | (yb << (2 * b + 1));
        proof {
            assert forall|c: int| 0 <= c < b + 1 implies bit(next, 2 * c) == #[trigger] bit(x, c) && bit(
                next,
                2 * c + 1,
            ) == bit(y, c) by {
                if c < b {
                    lemma_deposit(z, xb, yb, b, (2 * c) as u32);
                    lemma_deposit(z, xb, yb, b, (2 * c + 1) as u32);
                } else {
                    lemma_deposit(z, xb, yb, b, 0);
                }
            }
            lemma_deposit(z, xb, yb, b, 0);
        }
        z = next;
        b = b + 1;
    }
    z
}

} // verus!
