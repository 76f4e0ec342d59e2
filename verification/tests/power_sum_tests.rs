//! Unit tests of the power-sum field pipeline.

use subset_digest::field::{div_and_mod, mul_and_mod, LARGE_PRIME};
use subset_digest::power_sum::{
    calculate_difference, calculate_power_sums, compute_polynomial_coefficients, eval_poly,
    find_roots_among,
};

#[test]
fn test_mul_and_mod() {
    assert_eq!(mul_and_mod(2, 3, 10), 6);
    assert_eq!(mul_and_mod(2, 4, 10), 8);
    assert_eq!(mul_and_mod(2, 3, 5), 1);
    assert_eq!(mul_and_mod(2, 4, 5), 3);
}

#[test]
fn test_div_and_mod() {
    assert_eq!(div_and_mod(8, 2, 10), 4);
    assert_eq!(div_and_mod(8, 3, 10), 6); // MMI of 3 mod 10 = 7
    assert_eq!(div_and_mod(8, 6, 10), 8);
}

#[test]
fn test_calculate_power_sums() {
    assert_eq!(calculate_power_sums(&vec![2, 3, 5], 2), vec![10, 38]);
    assert_eq!(calculate_power_sums(&vec![2, 3, 5], 3), vec![10, 38, 160]);
    let one_large_num = calculate_power_sums(&vec![4294967295], 3);
    assert_eq!(one_large_num, vec![4294967295, 8947848534, 17567609286]);
    let two_large_nums = calculate_power_sums(&vec![4294967295, 2294967295], 3);
    assert_eq!(two_large_nums, vec![6589934590, 32873368637, 30483778854]);
}

#[test]
fn test_calculate_difference() {
    let diff = calculate_difference(vec![2, 3, 4], &vec![1, 2, 3]);
    assert_eq!(diff, vec![1, 1, 1]);
    let diff = calculate_difference(vec![2, 3, 4], &vec![1, 2, 3, 4]);
    assert_eq!(diff, vec![1, 1, 1]);
    let overflow_diff = calculate_difference(vec![1], &vec![2]);
    assert_eq!(overflow_diff, vec![51539607550]);
}

#[test]
fn test_compute_polynomial_coefficients_small_numbers() {
    let x = vec![2, 3, 5];
    let power_sums_diff = calculate_power_sums(&x, 3);
    assert_eq!(power_sums_diff, vec![10, 38, 160]);
    let coeffs = compute_polynomial_coefficients(power_sums_diff);
    assert_eq!(coeffs, vec![1, -10 + LARGE_PRIME, 31, -30 + LARGE_PRIME]);
}

#[test]
fn test_compute_polynomial_coefficients_large_numbers() {
    let x = vec![4294966796, 3987231002];
    let power_sums_diff = calculate_power_sums(&x, 2);
    assert_eq!(power_sums_diff, vec![8282197798, 20796235250]);
    let coeffs = compute_polynomial_coefficients(power_sums_diff);
    let e1 = (x[0] as i64) + (x[1] as i64) % LARGE_PRIME;
    let e2 = mul_and_mod(x[0] as i64, x[1] as i64, LARGE_PRIME);
    assert_eq!(coeffs, vec![1, -e1 + LARGE_PRIME, e2]);
}

#[test]
fn test_find_integer_monic_polynomial_roots_small_numbers() {
    let x: Vec<u32> = vec![2, 3, 5];
    let power_sums_diff = calculate_power_sums(&x, x.len());
    let coeffs = compute_polynomial_coefficients(power_sums_diff);
    let positions = find_roots_among(&coeffs, &x).unwrap();
    let mut roots: Vec<u32> = positions.iter().map(|&i| x[i]).collect();
    roots.sort();
    assert_eq!(roots, x);
}

#[test]
fn test_find_integer_monic_polynomial_roots_large_numbers() {
    let x: Vec<u32> = vec![3987231002, 4294966796];
    let power_sums_diff = calculate_power_sums(&x, x.len());
    let coeffs = compute_polynomial_coefficients(power_sums_diff);
    let positions = find_roots_among(&coeffs, &x).unwrap();
    let mut roots: Vec<u32> = positions.iter().map(|&i| x[i]).collect();
    roots.sort();
    assert_eq!(roots, x);
}

#[test]
fn test_find_integer_monic_polynomial_roots_no_solution() {
    let coeffs = vec![1, 47920287469, 12243762544, 39307197049];
    let candidates: Vec<u32> = vec![2, 3, 5, 7, 11, 4294967295];
    assert!(find_roots_among(&coeffs, &candidates).is_none());
}

#[test]
fn eval_poly_roots_vanish() {
    // (x - 2)(x - 3)(x - 5) has coefficients [1, P-10, 31, P-30].
    let coeffs = vec![1, -10 + LARGE_PRIME, 31, -30 + LARGE_PRIME];
    assert_eq!(eval_poly(&coeffs, 2), 0);
    assert_eq!(eval_poly(&coeffs, 3), 0);
    assert_eq!(eval_poly(&coeffs, 5), 0);
    assert_ne!(eval_poly(&coeffs, 4), 0);
}
