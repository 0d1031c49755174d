use shortcut::schedule::morton_schedule;
use shortcut::simd;
use shortcut::tools::{min, plus, z_encode, INF};

#[test]
fn scalar_min_and_saturating_plus() {
    assert_eq!(min(3, 9), 3);
    assert_eq!(min(9, 3), 3);
    assert_eq!(plus(3, 4), 7);
    assert_eq!(plus(INF - 1, 1), INF);
    assert_eq!(plus(INF, 0), INF);
    assert_eq!(plus(INF - 5, 4), INF - 1);
}

#[test]
fn swap_lane_mappings() {
    let v = [0, 1, 2, 3, 4, 5, 6, 7];
    assert_eq!(simd::swap(v, 1), [1, 0, 3, 2, 5, 4, 7, 6]);
    assert_eq!(simd::swap(v, 2), [2, 3, 0, 1, 6, 7, 4, 5]);
    assert_eq!(simd::swap(v, 4), [4, 5, 6, 7, 0, 1, 2, 3]);
}

#[test]
fn from_slice_keeps_lane_order() {
    let s = vec![7u32, 6, 5, 4, 3, 2, 1, 0];
    assert_eq!(simd::from_slice(&s[..]), [7, 6, 5, 4, 3, 2, 1, 0]);
}

#[test]
fn extract_every_lane() {
    let v = simd::from_slice(&[10, 11, 12, 13, 14, 15, 16, 17]);
    for i in 0..8u8 {
        assert_eq!(simd::extract(v, i), 10 + i as u32);
    }
    assert_eq!(simd::lowestf32(v), 17);
    assert_eq!(simd::lowestf32(v), simd::extract(v, 7));
}

#[test]
fn horizontal_min_of_lanes() {
    assert_eq!(simd::horizontal_min([9, 8, 7, 3, 5, 6, 4, 8]), 3);
    assert_eq!(simd::horizontal_min([9, 8, 7, 6, 5, 6, 4, 1]), 1);
    assert_eq!(simd::horizontal_min(simd::f32x8_infty()), INF);
}

#[test]
fn lane_wise_add_and_min() {
    let v = [1, 2, 3, 4, 5, 6, 7, INF];
    let w = [8, 7, 6, 5, 4, 3, 2, 1];
    assert_eq!(simd::add(v, w), [9, 9, 9, 9, 9, 9, 9, INF]);
    assert_eq!(simd::min(v, w), [1, 2, 3, 4, 4, 3, 2, 1]);
}

#[test]
fn z_encode_interleaves_bits() {
    assert_eq!(z_encode(0, 0), 0);
    assert_eq!(z_encode(1, 0), 1);
    assert_eq!(z_encode(0, 1), 2);
    assert_eq!(z_encode(3, 3), 15);
    assert_eq!(z_encode(0b101, 0b011), 0b011011);
    assert_eq!(z_encode(0xFFFF, 0), 0x5555_5555);
    assert_eq!(z_encode(0, 0xFFFF), 0xAAAA_AAAA);
    assert_eq!(z_encode(0x1_0000, 0x2_0000), 0);
}

#[test]
fn morton_schedule_is_sorted_by_key() {
    let s = morton_schedule(2);
    assert_eq!(s, vec![(0, 0, 0), (1, 1, 0), (2, 0, 1), (3, 1, 1)]);
    let s = morton_schedule(5);
    assert_eq!(s.len(), 25);
    for w in s.windows(2) {
        assert!(w[0] < w[1]);
    }
    for i in 0..5 {
        for j in 0..5 {
            assert!(s.iter().any(|e| e.1 == i && e.2 == j));
        }
    }
}
