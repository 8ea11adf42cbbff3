use subspace::fixed::{I32F32, I64F64};
use subspace::math::{fixed_proportion_to_u16, inplace_normalize, inplace_row_normalize_sparse, mask_diag_sparse};
use subspace::math64::{fixed64_to_u64, vec_fixed64_to_fixed32};
use subspace::median::weighted_median;
use substrate_fixed::types::I32F32 as OuterI32F32;
use substrate_fixed::types::I64F64 as OuterI64F64;
use substrate_fixed::types::I96F32;

fn fixed(x: f64) -> I32F32 {
    I32F32 { bits: OuterI32F32::from_num(x).to_bits() }
}

fn fixed_vec(xs: &[f64]) -> Vec<I32F32> {
    xs.iter().map(|x| fixed(*x)).collect()
}

fn to_outer64(x: OuterI64F64) -> I64F64 {
    I64F64 { bits: x.to_bits() }
}

/// Reshapes a vector into a sparse matrix with `rows` rows (or, transposed,
/// `rows` columns), keeping the positive entries.
fn vec_to_sparse_mat_fixed(vector: &[f32], rows: usize, transpose: bool) -> Vec<Vec<(u16, I32F32)>> {
    assert!(vector.len() % rows == 0, "Vector of len {:?} cannot reshape to {rows} rows.", vector.len());
    let cols: usize = vector.len() / rows;
    let mut mat: Vec<Vec<(u16, I32F32)>> = vec![];
    if transpose {
        for col in 0..cols {
            let mut row_vec: Vec<(u16, I32F32)> = vec![];
            for row in 0..rows {
                if vector[row * cols + col] > 0. {
                    row_vec.push((row as u16, fixed(vector[row * cols + col] as f64)));
                }
            }
            mat.push(row_vec);
        }
    } else {
        for row in 0..rows {
            let mut row_vec: Vec<(u16, I32F32)> = vec![];
            for col in 0..cols {
                if vector[row * cols + col] > 0. {
                    row_vec.push((col as u16, fixed(vector[row * cols + col] as f64)));
                }
            }
            mat.push(row_vec);
        }
    }
    mat
}

/// A copy of `x` that sums to one, unless it sums to zero.
fn normalize(x: &[I32F32]) -> Vec<I32F32> {
    let mut y: Vec<I32F32> = x.to_vec();
    inplace_normalize(&mut y);
    y
}

fn assert_float_compare(a: I32F32, b: I32F32, epsilon: I32F32) {
    assert!((a.bits - b.bits).abs() <= epsilon.bits, "a({a:?}) != b({b:?})");
}

fn assert_vec_compare(va: &[I32F32], vb: &[I32F32], epsilon: I32F32) {
    assert!(va.len() == vb.len());
    for (a, b) in va.iter().zip(vb.iter()) {
        assert_float_compare(*a, *b, epsilon);
    }
}

fn assert_sparse_mat_compare(ma: &[Vec<(u16, I32F32)>], mb: &[Vec<(u16, I32F32)>], epsilon: I32F32) {
    assert!(ma.len() == mb.len());
    for row in 0..ma.len() {
        assert!(ma[row].len() == mb[row].len());
        for j in 0..ma[row].len() {
            assert!(ma[row][j].0 == mb[row][j].0);
            assert_float_compare(ma[row][j].1, mb[row][j].1, epsilon)
        }
    }
}

fn sum(x: &[I32F32]) -> I32F32 {
    I32F32 { bits: x.iter().map(|v| v.bits).sum() }
}

fn narrow(x: OuterI64F64) -> I32F32 {
    vec_fixed64_to_fixed32(vec![to_outer64(x)])[0]
}

#[test]
fn test_math_u64_normalization() {
    let min: u64 = 1;
    let min32: u64 = 4_889_444;
    let mid: u64 = 10_500_000_000_000_000;
    let max: u64 = 21_000_000_000_000_000;
    let min_64 = OuterI64F64::from_num(min);
    let min32_64 = OuterI64F64::from_num(min32);
    let mid_64 = OuterI64F64::from_num(mid);
    let max_64 = OuterI64F64::from_num(max);
    let max_sum = OuterI64F64::from_num(max);
    let min_frac = min_64 / max_sum;
    assert_eq!(min_frac, OuterI64F64::from_num(0.0000000000000000476));
    let min_frac_32: I32F32 = narrow(min_frac);
    assert_eq!(min_frac_32, fixed(0.0));
    let min32_frac = min32_64 / max_sum;
    assert_eq!(min32_frac, OuterI64F64::from_num(0.00000000023283066664));
    let min32_frac_32: I32F32 = narrow(min32_frac);
    assert_eq!(min32_frac_32, fixed(0.0000000002));
    let half = mid_64 / max_sum;
    assert_eq!(half, OuterI64F64::from_num(0.5));
    let half_32: I32F32 = narrow(half);
    assert_eq!(half_32, fixed(0.5));
    let one = max_64 / max_sum;
    assert_eq!(one, OuterI64F64::from_num(1));
    let one_32: I32F32 = narrow(one);
    assert_eq!(one_32, fixed(1.0));
}

#[test]
fn test_math_to_num() {
    let val = OuterI32F32::from_num(u16::MAX);
    let res: u16 = val.to_num::<u16>();
    assert_eq!(res, u16::MAX);
    let vector: Vec<OuterI32F32> = vec![val; 1000];
    let target: Vec<u16> = vec![u16::MAX; 1000];
    let output: Vec<u16> = vector.iter().map(|e: &OuterI32F32| e.to_num::<u16>()).collect();
    assert_eq!(output, target);
    let output: Vec<u16> = vector.iter().map(|e: &OuterI32F32| (*e).to_num::<u16>()).collect();
    assert_eq!(output, target);
    let val = OuterI32F32::max_value();
    let res: u64 = val.to_num::<u64>();
    let vector: Vec<OuterI32F32> = vec![val; 1000];
    let target: Vec<u64> = vec![res; 1000];
    let output: Vec<u64> = vector.iter().map(|e: &OuterI32F32| e.to_num::<u64>()).collect();
    assert_eq!(output, target);
    let output: Vec<u64> = vector.iter().map(|e: &OuterI32F32| (*e).to_num::<u64>()).collect();
    assert_eq!(output, target);
    let val = OuterI32F32::from_num(0);
    let res: u64 = val.to_num::<u64>();
    let vector: Vec<OuterI32F32> = vec![val; 1000];
    let target: Vec<u64> = vec![res; 1000];
    let output: Vec<u64> = vector.iter().map(|e: &OuterI32F32| e.to_num::<u64>()).collect();
    assert_eq!(output, target);
    let output: Vec<u64> = vector.iter().map(|e: &OuterI32F32| (*e).to_num::<u64>()).collect();
    assert_eq!(output, target);
    let val: I96F32 = I96F32::from_num(u64::MAX);
    let res: u64 = val.to_num::<u64>();
    assert_eq!(res, u64::MAX);
    let vector: Vec<I96F32> = vec![val; 1000];
    let target: Vec<u64> = vec![u64::MAX; 1000];
    let output: Vec<u64> = vector.iter().map(|e: &I96F32| e.to_num::<u64>()).collect();
    assert_eq!(output, target);
    let output: Vec<u64> = vector.iter().map(|e: &I96F32| (*e).to_num::<u64>()).collect();
    assert_eq!(output, target);
}

#[test]
fn test_math_vec_to_sparse_mat_fixed() {
    let vector: Vec<f32> = vec![0., 1., 2., 0., 10., 100.];
    let target: Vec<Vec<(u16, I32F32)>> = vec![
        vec![(1, fixed(1.)), (2, fixed(2.))],
        vec![(1, fixed(10.)), (2, fixed(100.))],
    ];
    let mat = vec_to_sparse_mat_fixed(&vector, 2, false);
    assert_sparse_mat_compare(&mat, &target, fixed(0.0));
    let vector: Vec<f32> = vec![0., 0.];
    let target: Vec<Vec<(u16, I32F32)>> = vec![vec![], vec![]];
    let mat = vec_to_sparse_mat_fixed(&vector, 2, false);
    assert_sparse_mat_compare(&mat, &target, fixed(0.0));
    let vector: Vec<f32> = vec![0., 1., 2., 0., 10., 100.];
    let target: Vec<Vec<(u16, I32F32)>> = vec![
        vec![],
        vec![(0, fixed(1.)), (1, fixed(10.))],
        vec![(0, fixed(2.)), (1, fixed(100.))],
    ];
    let mat = vec_to_sparse_mat_fixed(&vector, 2, true);
    assert_sparse_mat_compare(&mat, &target, fixed(0.0));
    let vector: Vec<f32> = vec![0., 0.];
    let target: Vec<Vec<(u16, I32F32)>> = vec![vec![]];
    let mat = vec_to_sparse_mat_fixed(&vector, 2, true);
    assert_sparse_mat_compare(&mat, &target, fixed(0.0));
}

#[test]
fn test_math_normalize() {
    let epsilon: I32F32 = fixed(0.0001);
    let x: Vec<I32F32> = vec![];
    let y: Vec<I32F32> = normalize(&x);
    assert_vec_compare(&x, &y, epsilon);
    let x: Vec<I32F32> = fixed_vec(&[1.0, 10.0, 30.0]);
    let y: Vec<I32F32> = normalize(&x);
    assert_vec_compare(&y, &[fixed(0.0243902437), fixed(0.243902439), fixed(0.7317073171)], epsilon);
    assert_float_compare(sum(&y), fixed(1.0), epsilon);
    let x: Vec<I32F32> = fixed_vec(&[-1.0, 10.0, 30.0]);
    let y: Vec<I32F32> = normalize(&x);
    assert_vec_compare(&y, &[fixed(-0.0256410255), fixed(0.2564102563), fixed(0.769230769)], epsilon);
    assert_float_compare(sum(&y), fixed(1.0), epsilon);
}

#[test]
fn test_math_inplace_normalize() {
    let epsilon: I32F32 = fixed(0.0001);
    let mut x1: Vec<I32F32> = fixed_vec(&[1.0, 10.0, 30.0]);
    inplace_normalize(&mut x1);
    assert_vec_compare(&x1, &[fixed(0.0243902437), fixed(0.243902439), fixed(0.7317073171)], epsilon);
    let mut x2: Vec<I32F32> = fixed_vec(&[-1.0, 10.0, 30.0]);
    inplace_normalize(&mut x2);
    assert_vec_compare(&x2, &[fixed(-0.0256410255), fixed(0.2564102563), fixed(0.769230769)], epsilon);
}

#[test]
fn test_math_inplace_row_normalize_sparse() {
    let epsilon: I32F32 = fixed(0.0001);
    let vector: Vec<f32> = vec![
        0., 1., 0., 2., 0., 3., 4., 0., 1., 0., 2., 0., 3., 0., 1., 0., 0., 2., 0., 3., 4., 0., 10., 0., 100.,
        1000., 0., 10000., 0., 0., 0., 0., 0., 0., 0., 1., 1., 1., 1., 1., 1., 1.,
    ];
    let mut mat = vec_to_sparse_mat_fixed(&vector, 6, false);
    inplace_row_normalize_sparse(&mut mat);
    let target: Vec<f32> = vec![
        0., 0.1, 0., 0.2, 0., 0.3, 0.4, 0., 0.166666, 0., 0.333333, 0., 0.5, 0., 0.1, 0., 0., 0.2, 0., 0.3, 0.4,
        0., 0.0009, 0., 0.009, 0.09, 0., 0.9, 0., 0., 0., 0., 0., 0., 0., 0.142857, 0.142857, 0.142857, 0.142857,
        0.142857, 0.142857, 0.142857,
    ];
    assert_sparse_mat_compare(&mat, &vec_to_sparse_mat_fixed(&target, 6, false), epsilon);
    let vector: Vec<f32> = vec![0., 0., 0., 0., 0., 0., 0., 0., 0., 0., 0., 0.];
    let target: Vec<f32> = vec![0., 0., 0., 0., 0., 0., 0., 0., 0., 0., 0., 0.];
    let mut mat = vec_to_sparse_mat_fixed(&vector, 3, false);
    inplace_row_normalize_sparse(&mut mat);
    assert_sparse_mat_compare(&mat, &vec_to_sparse_mat_fixed(&target, 3, false), fixed(0.0));
}

#[test]
fn test_math_mask_diag_sparse() {
    let vector: Vec<f32> = vec![1., 2., 3., 4., 5., 6., 7., 8., 9.];
    let target: Vec<f32> = vec![0., 2., 3., 4., 0., 6., 7., 8., 0.];
    let mat = vec_to_sparse_mat_fixed(&vector, 3, false);
    let result = mask_diag_sparse(&mat);
    assert_sparse_mat_compare(&result, &vec_to_sparse_mat_fixed(&target, 3, false), fixed(0.0));
    let vector: Vec<f32> = vec![1., 0., 0., 0., 5., 0., 0., 0., 9.];
    let target: Vec<f32> = vec![0., 0., 0., 0., 0., 0., 0., 0., 0.];
    let mat = vec_to_sparse_mat_fixed(&vector, 3, false);
    let result = mask_diag_sparse(&mat);
    assert_sparse_mat_compare(&result, &vec_to_sparse_mat_fixed(&target, 3, false), fixed(0.0));
    let vector: Vec<f32> = vec![0., 0., 0., 0., 0., 0., 0., 0., 0.];
    let target: Vec<f32> = vec![0., 0., 0., 0., 0., 0., 0., 0., 0.];
    let mat = vec_to_sparse_mat_fixed(&vector, 3, false);
    let result = mask_diag_sparse(&mat);
    assert_sparse_mat_compare(&result, &vec_to_sparse_mat_fixed(&target, 3, false), fixed(0.0));
}

#[test]
fn weighted_median_splits_the_stake_at_the_minority_mark() {
    let stake = fixed_vec(&[0.25, 0.25, 0.25, 0.25]);
    let score = fixed_vec(&[10.0, 20.0, 30.0, 40.0]);
    let m = weighted_median(&stake, &score, &[0, 1, 2, 3], fixed(0.5), fixed(0.0), fixed(1.0));
    assert_eq!(m, fixed(30.0));
    // a smaller mark moves the median down
    let m = weighted_median(&stake, &score, &[0, 1, 2, 3], fixed(0.3), fixed(0.0), fixed(1.0));
    assert_eq!(m, fixed(20.0));
}

#[test]
fn library_conversions_take_the_integer_part() {
    assert_eq!(fixed_proportion_to_u16(fixed(1.0)), u16::MAX);
    assert_eq!(fixed_proportion_to_u16(fixed(0.5)), 32767);
    assert_eq!(fixed_proportion_to_u16(fixed(0.0)), 0);
    let x = I64F64 { bits: OuterI64F64::from_num(12.75).to_bits() };
    assert_eq!(fixed64_to_u64(x), 12);
    let big = I64F64 { bits: OuterI64F64::from_num(1u64 << 62).to_bits() };
    assert_eq!(fixed64_to_u64(big), 1u64 << 62);
}
