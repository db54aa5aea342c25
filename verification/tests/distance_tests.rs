use diskann::distance::distance_compare;
use diskann::Metric;

#[test]
fn squared_euclidean_exact_value() {
    let a = [1i32, 2, 3, 4];
    let b = [4i32, 6, 3, 2];
    // (3)^2 + (4)^2 + 0 + (-2)^2 = 29
    assert_eq!(distance_compare(&a, &b, Metric::L2), 29u128);
}

#[test]
fn distance_is_symmetric_and_reflexive() {
    let a = [-5i32, 7, 100, -3];
    let b = [9i32, -2, 50, 0];
    assert_eq!(
        distance_compare(&a, &b, Metric::L2),
        distance_compare(&b, &a, Metric::L2)
    );
    assert_eq!(distance_compare(&a, &a, Metric::L2), 0);
}

#[test]
fn extreme_scalars_do_not_overflow() {
    let a = [i32::MIN; 8];
    let b = [i32::MAX; 8];
    let per = (u32::MAX as u128) * (u32::MAX as u128);
    assert_eq!(distance_compare(&a, &b, Metric::L2), 8 * per);
}

#[test]
fn alignment_rounds_up_to_eight() {
    assert_eq!(diskann::aligned_dim(1), 8);
    assert_eq!(diskann::aligned_dim(8), 8);
    assert_eq!(diskann::aligned_dim(9), 16);
    assert_eq!(diskann::aligned_dim(128), 128);
}
