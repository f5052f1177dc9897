use cerebros_numerics::{gemm_fp16_acc32, GemmError};
use half::f16;

fn widen(h: u16) -> u32 {
    f16::from_bits(h).to_f32().to_bits()
}

fn step(acc: u32, x: u32, y: u32) -> u32 {
    (f32::from_bits(acc) + f32::from_bits(x) * f32::from_bits(y)).to_bits()
}

fn narrow(s: u32) -> u16 {
    f16::from_f32(f32::from_bits(s)).to_bits()
}

fn pack(values: &[f32]) -> Vec<u8> {
    let mut bytes = Vec::new();
    for v in values {
        bytes.extend_from_slice(&f16::from_f32(*v).to_bits().to_le_bytes());
    }
    bytes
}

fn unpack(bytes: &[u8]) -> Vec<f32> {
    bytes
        .chunks_exact(2)
        .map(|c| f16::from_bits(u16::from_le_bytes([c[0], c[1]])).to_f32())
        .collect()
}

fn product(a: &[f32], b: &[f32], m: usize, n: usize, k: usize) -> Result<Vec<u8>, GemmError> {
    gemm_fp16_acc32(&pack(a), &pack(b), m, n, k, widen, step, narrow)
}

#[test]
fn identity_times_matrix_is_exact() {
    let out = product(&[1.0, 0.0, 0.0, 1.0], &[2.0, 3.0, 4.0, 5.0], 2, 2, 2).unwrap();
    assert_eq!(out, pack(&[2.0, 3.0, 4.0, 5.0]));
    assert_eq!(unpack(&out), vec![2.0, 3.0, 4.0, 5.0]);
    assert_eq!(out, vec![0x00, 0x40, 0x00, 0x42, 0x00, 0x44, 0x00, 0x45]);
}

#[test]
fn sixteen_ones_sum_to_sixteen() {
    let ones = vec![1.0f32; 16];
    let out = product(&ones, &ones, 1, 1, 16).unwrap();
    assert_eq!(unpack(&out), vec![16.0]);
    assert_eq!(out, vec![0x00, 0x4c]);
}

#[test]
fn nine_ones_sum_to_nine() {
    let ones = vec![1.0f32; 9];
    let out = product(&ones, &ones, 1, 1, 9).unwrap();
    assert_eq!(unpack(&out), vec![9.0]);
    assert_eq!(out, vec![0x80, 0x48]);
}

#[test]
fn rectangular_product_follows_row_major_layout() {
    // 2x3 times 3x4
    let a = [1.0, 2.0, 3.0, 4.0, 5.0, 6.0];
    let b = [1.0, 2.0, 3.0, 4.0, 5.0, 6.0, 7.0, 8.0, 9.0, 10.0, 11.0, 12.0];
    let out = product(&a, &b, 2, 4, 3).unwrap();
    assert_eq!(out.len(), 2 * 4 * 2);
    assert_eq!(
        unpack(&out),
        vec![38.0, 44.0, 50.0, 56.0, 83.0, 98.0, 113.0, 128.0]
    );
}

#[test]
fn column_vector_times_row_vector() {
    let out = product(&[1.0, 2.0, 3.0], &[4.0, 5.0], 3, 2, 1).unwrap();
    assert_eq!(unpack(&out), vec![4.0, 5.0, 8.0, 10.0, 12.0, 15.0]);
}

#[test]
fn sums_are_kept_in_single_precision_until_the_end() {
    // 2048 + 1 is not a half, so a sum kept in half precision would stay at
    // 2048 for ever; in single precision the ones add up.
    let mut a = vec![1.0f32; 9];
    a[0] = 2048.0;
    let b = vec![1.0f32; 9];
    let out = product(&a, &b, 1, 1, 9).unwrap();
    assert_eq!(unpack(&out), vec![2056.0]);
}

#[test]
fn result_outside_the_half_range_is_infinite() {
    let out = product(&[60000.0, 60000.0], &[1.0, 1.0], 1, 1, 2).unwrap();
    assert_eq!(out, vec![0x00, 0x7c]);
}

#[test]
fn every_length_of_the_contraction_counts_each_pair_once() {
    for k in 0..40usize {
        let ones = vec![1.0f32; k];
        let out = product(&ones, &ones, 1, 1, k).unwrap();
        assert_eq!(unpack(&out), vec![k as f32]);
    }
}

#[test]
fn many_rows_match_a_plain_triple_loop() {
    let (m, n, k) = (37usize, 23usize, 19usize);
    let a: Vec<f32> = (0..m * k).map(|t| ((t * 7) % 13) as f32 - 6.0).collect();
    let b: Vec<f32> = (0..k * n).map(|t| ((t * 5) % 11) as f32 * 0.5 - 2.0).collect();
    let out = product(&a, &b, m, n, k).unwrap();
    let mut want = Vec::new();
    for i in 0..m {
        for j in 0..n {
            let mut acc = 0.0f32;
            for p in 0..k {
                acc += a[i * k + p] * b[p * n + j];
            }
            want.push(acc);
        }
    }
    assert_eq!(out, pack(&want));
}
