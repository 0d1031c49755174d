use rand::rngs::StdRng;
use rand::{Rng, SeedableRng};
use shortcut::tools::INF;
use shortcut::{
    v0_baseline, v1_linear_reading, v2_instr_level_parallelism, v3_simd, v4_register_reuse,
    v5_more_register_reuse, v6_prefetch, v7_cache_reuse,
};

type Step = fn(&mut Vec<u32>, &Vec<u32>, usize);

fn variants() -> Vec<(&'static str, Step)> {
    vec![
        ("v0", v0_baseline::step as Step),
        ("v1", v1_linear_reading::step as Step),
        ("v2", v2_instr_level_parallelism::step as Step),
        ("v3", v3_simd::step as Step),
        ("v4", v4_register_reuse::step as Step),
        ("v5", v5_more_register_reuse::step as Step),
        ("v6", v6_prefetch::step as Step),
        ("v7", v7_cache_reuse::step as Step),
    ]
}

fn run(step: Step, d: &Vec<u32>, n: usize) -> Vec<u32> {
    let mut r = vec![12345u32; n * n];
    step(&mut r, d, n);
    r
}

fn naive(d: &[u32], n: usize) -> Vec<u32> {
    let mut r = vec![0u32; n * n];
    for i in 0..n {
        for j in 0..n {
            let mut v = INF;
            for k in 0..n {
                let z = d[i * n + k].saturating_add(d[k * n + j]);
                v = v.min(z);
            }
            r[i * n + j] = v;
        }
    }
    r
}

fn random_matrix(n: usize, seed: u64) -> Vec<u32> {
    let mut rng = StdRng::seed_from_u64(seed);
    (0..n * n).map(|_| rng.gen_range(0u32, 1u32 << 24)).collect()
}

fn check_all(d: &Vec<u32>, n: usize, expected: &[u32]) {
    for (name, step) in variants() {
        assert_eq!(run(step, d, n), expected, "variant {}", name);
    }
}

#[test]
fn single_zero() {
    check_all(&vec![0], 1, &[0]);
}

#[test]
fn single_weight_doubles() {
    check_all(&vec![5], 1, &[10]);
}

#[test]
fn two_by_two() {
    check_all(&vec![0, 7, 3, 0], 2, &[0, 7, 3, 0]);
}

#[test]
fn three_by_three() {
    let d = vec![0, 8, 2, 1, 0, 9, 4, 5, 0];
    check_all(&d, 3, &[0, 7, 2, 1, 0, 3, 4, 5, 0]);
}

#[test]
fn identity_plus_unit_eight() {
    let n = 8;
    let d: Vec<u32> = (0..n * n).map(|p| if p / n == p % n { 0 } else { 1 }).collect();
    check_all(&d, n, &d);
}

#[test]
fn random_64_all_variants_agree() {
    let n = 64;
    let d = random_matrix(n, 0x5eed);
    let expected = naive(&d, n);
    check_all(&d, n, &expected);
}

#[test]
fn edge_sizes_agree_with_naive() {
    for (seed, &n) in [1usize, 7, 8, 9, 16, 17, 100].iter().enumerate() {
        let d = random_matrix(n, seed as u64 + 1);
        let expected = naive(&d, n);
        check_all(&d, n, &expected);
    }
}

#[test]
fn wider_than_one_stripe() {
    let n = 503;
    let d = random_matrix(n, 99);
    let expected = naive(&d, n);
    assert_eq!(run(v7_cache_reuse::step, &d, n), expected);
    assert_eq!(run(v5_more_register_reuse::step, &d, n), expected);
}

#[test]
fn infinite_weights_stay_infinite() {
    let d = vec![INF, INF, INF, INF];
    check_all(&d, 2, &[INF, INF, INF, INF]);
}

#[test]
fn sums_saturate_at_infinity() {
    let big = INF - 1;
    let d = vec![big, big, big, big];
    check_all(&d, 2, &[INF, INF, INF, INF]);
}

#[test]
fn unreachable_pairs_mix_with_finite_ones() {
    let d = vec![0, INF, 4, INF, 0, INF, 1, 2, 0];
    check_all(&d, 3, &[0, 6, 4, INF, 0, INF, 1, 2, 0]);
}

#[test]
fn same_variant_same_output() {
    let n = 33;
    let d = random_matrix(n, 7);
    for (name, step) in variants() {
        assert_eq!(run(step, &d, n), run(step, &d, n), "variant {}", name);
    }
}

#[test]
fn diagonal_zero_never_worse_than_direct() {
    let n = 20;
    let mut d = random_matrix(n, 11);
    for i in 0..n {
        d[i * n + i] = 0;
    }
    for (name, step) in variants() {
        let r = run(step, &d, n);
        for p in 0..n * n {
            assert!(r[p] <= d[p], "variant {} at {}", name, p);
        }
    }
}

#[test]
fn infinite_padding_keeps_leading_block() {
    let n = 10;
    let n2 = 13;
    let d = random_matrix(n, 21);
    let mut d2 = vec![INF; n2 * n2];
    for i in 0..n {
        for j in 0..n {
            d2[i * n2 + j] = d[i * n + j];
        }
    }
    for (name, step) in variants() {
        let r = run(step, &d, n);
        let r2 = run(step, &d2, n2);
        for i in 0..n {
            for j in 0..n {
                assert_eq!(r2[i * n2 + j], r[i * n + j], "variant {}", name);
            }
        }
    }
}

#[test]
fn raising_weights_never_lowers_result() {
    let n = 19;
    let d = random_matrix(n, 31);
    let mut rng = StdRng::seed_from_u64(32);
    let d2: Vec<u32> = d.iter().map(|&x| x + rng.gen_range(0u32, 1000)).collect();
    for (name, step) in variants() {
        let r = run(step, &d, n);
        let r2 = run(step, &d2, n);
        for p in 0..n * n {
            assert!(r[p] <= r2[p], "variant {} at {}", name, p);
        }
    }
}
