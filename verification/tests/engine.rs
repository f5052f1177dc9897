use cerebros_numerics::convert::convert_each;
use cerebros_numerics::engine::{dot, fill_row, multiply};

// An arithmetic on integers in which the order of the steps shows.
fn step(acc: u32, x: u32, y: u32) -> u32 {
    acc.wrapping_mul(31).wrapping_add(x.wrapping_mul(y))
}

fn plain_dot(xs: &[u32], b: &[u32], n: usize, j: usize) -> u32 {
    let mut acc = 0u32;
    for p in 0..xs.len() {
        acc = step(acc, xs[p], b[p * n + j]);
    }
    acc
}

fn sample(len: usize, seed: u32) -> Vec<u32> {
    (0..len as u32).map(|t| t.wrapping_mul(2654435761).wrapping_add(seed) >> 7).collect()
}

#[test]
fn dot_takes_the_pairs_in_order() {
    // ((0 * 31 + 1 * 4) * 31 + 2 * 5) * 31 + 3 * 6
    assert_eq!(dot(&[1, 2, 3], &[4, 5, 6], 1, 0, &step), (4 * 31 + 10) * 31 + 18);
}

#[test]
fn dot_of_nothing_is_zero() {
    assert_eq!(dot(&[], &[], 3, 2, &step), 0);
}

#[test]
fn dot_walks_down_a_column() {
    // b is 2x3; column 1 is 20, 50
    let b = [10, 20, 30, 40, 50, 60];
    assert_eq!(dot(&[1, 1], &b, 3, 1, &step), 20 * 31 + 50);
    assert_eq!(dot(&[1, 1], &b, 3, 0, &step), 10 * 31 + 40);
    assert_eq!(dot(&[1, 1], &b, 3, 2, &step), 30 * 31 + 60);
}

#[test]
fn dot_agrees_with_a_plain_loop_around_the_group_of_eight() {
    for k in 0..50usize {
        let xs = sample(k, 1);
        let b = sample(k * 3, 2);
        for j in 0..3 {
            assert_eq!(dot(&xs, &b, 3, j, &step), plain_dot(&xs, &b, 3, j));
        }
    }
}

#[test]
fn fill_row_writes_one_row() {
    // a is 2x2, b is 2x3
    let a = [1, 2, 3, 4];
    let b = [1, 0, 2, 0, 1, 3];
    let mut cells = [99u32; 3];
    fill_row(&mut cells, &a, &b, 1, 3, 2, &step);
    assert_eq!(cells, [3 * 31, 4, 6 * 31 + 12]);
    fill_row(&mut cells, &a, &b, 0, 3, 2, &step);
    assert_eq!(cells, [31, 2, 2 * 31 + 6]);
}

#[test]
fn multiply_fills_every_cell() {
    for (m, n, k) in [(1, 1, 1), (3, 5, 7), (8, 8, 8), (2, 9, 16), (13, 4, 17), (64, 3, 9)] {
        let a = sample(m * k, 3);
        let b = sample(k * n, 4);
        let c = multiply(Vec::new(), &a, &b, m, n, k, &step);
        assert_eq!(c.len(), m * n);
        for i in 0..m {
            for j in 0..n {
                assert_eq!(c[i * n + j], plain_dot(&a[i * k..(i + 1) * k], &b, n, j));
            }
        }
    }
}

#[test]
fn multiply_with_an_empty_dimension() {
    assert_eq!(multiply(Vec::new(), &[], &[1, 2, 3, 4], 0, 2, 2, &step), Vec::<u32>::new());
    assert_eq!(multiply(Vec::new(), &[1, 2, 3, 4], &[], 2, 0, 2, &step), Vec::<u32>::new());
    assert_eq!(multiply(Vec::new(), &[], &[], 2, 3, 0, &step), vec![0u32; 6]);
}

#[test]
fn multiply_is_not_the_transposed_product() {
    let a = [1, 2, 3, 4];
    let b = [0, 1, 1, 0];
    // columns of a swapped, not rows
    assert_eq!(multiply(Vec::new(), &a, &b, 2, 2, 2, &step), vec![2, 31, 4, 3 * 31]);
}

#[test]
fn convert_each_applies_the_callback_in_place_order() {
    let doubled = convert_each(Vec::new(), &[1u16, 2, 3], &|h: u16| 2 * h as u32);
    assert_eq!(doubled, vec![2u32, 4, 6]);
    let none: Vec<u16> = convert_each(Vec::new(), &[], &|s: u32| s as u16);
    assert!(none.is_empty());
}
