use mathlex_eval::broadcasting::{compute_shape, flat_to_multi, total_elements, ResolvedArg};
use mathlex_eval::number::NumericValue;

fn re(v: f64) -> NumericValue {
    NumericValue::Real(v.to_bits())
}

#[test]
fn flat_to_multi_2d() {
    let shape = vec![3, 2];
    // Row-major: last axis varies fastest
    assert_eq!(flat_to_multi(0, &shape), vec![0, 0]);
    assert_eq!(flat_to_multi(1, &shape), vec![0, 1]);
    assert_eq!(flat_to_multi(2, &shape), vec![1, 0]);
    assert_eq!(flat_to_multi(5, &shape), vec![2, 1]);
}

#[test]
fn flat_to_multi_3d() {
    let shape = vec![2, 3, 4];
    assert_eq!(flat_to_multi(0, &shape), vec![0, 0, 0]);
    assert_eq!(flat_to_multi(23, &shape), vec![1, 2, 3]);
}

#[test]
fn total_elements_products() {
    assert_eq!(total_elements(&[]), 1);
    assert_eq!(total_elements(&[3, 2]), 6);
    assert_eq!(total_elements(&[2, 0, 5]), 0);
}

#[test]
fn compute_shape_all_scalars() {
    let args = vec![ResolvedArg::Scalar(re(1.0)), ResolvedArg::Scalar(re(2.0))];
    let (shape, axis_args) = compute_shape(&args);
    assert!(shape.is_empty());
    assert!(axis_args.is_empty());
}

#[test]
fn compute_shape_one_array() {
    let args = vec![ResolvedArg::Array(vec![re(1.0), re(2.0), re(3.0)])];
    let (shape, axis_args) = compute_shape(&args);
    assert_eq!(shape, vec![3]);
    assert_eq!(axis_args, vec![0]);
}

#[test]
fn compute_shape_mixed() {
    let args = vec![
        ResolvedArg::Array(vec![re(1.0), re(2.0)]),
        ResolvedArg::Scalar(re(5.0)),
        ResolvedArg::Array(vec![re(10.0), re(20.0), re(30.0)]),
    ];
    let (shape, axis_args) = compute_shape(&args);
    assert_eq!(shape, vec![2, 3]);
    assert_eq!(axis_args, vec![0, 2]);
}
