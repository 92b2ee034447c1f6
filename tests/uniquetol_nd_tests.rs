use uniquetol::{uniquetol_nd, ArrayNd, AxisBoundsError, FlattenAxis, NanComparison, Occurrence, Tols};

fn envelope(x: u64, y: u64, t: Tols) -> bool {
    let (x, y) = (f64::from_bits(x), f64::from_bits(y));
    let (atol, rtol) = (f64::from_bits(t.atol), f64::from_bits(t.rtol));
    let tol = atol.max(rtol * x.abs().max(y.abs()));
    (x - y).abs() <= tol
}

fn tols() -> Tols {
    Tols::new(1e-5f64.to_bits(), 1e-2f64.to_bits()).unwrap()
}

fn array(shape: &[usize], values: &[f64]) -> ArrayNd {
    ArrayNd::from_shape_vec(shape.to_vec(), values.iter().map(|v| v.to_bits()).collect()).unwrap()
}

fn floats(a: &ArrayNd) -> Vec<f64> {
    a.data.iter().map(|x| f64::from_bits(*x)).collect()
}

const ARR_2D: [f64; 12] = [
    1.000000, 2.000000, -3.000001, //
    1.000001, 2.000001, -2.999997, //
    -4.300000, 1.999996, -0.000000, //
    1.000002, 2.000002, -2.999998,
];

const ARR_3D: [f64; 40] = [
    1.000000, 2.000000, -3.000001, 2.000002, 1.999998, //
    1.000001, 2.000001, -2.999997, 2.000001, 1.999999, //
    -4.300000, 1.999996, 0.000000, 1.999994, 2.000002, //
    1.000002, -3.777777, -2.999998, -3.777774, -3.777771, //
    -4.300000, 1.999996, 0.000000, 1.999994, 2.000002, //
    -4.299994, 2.000002, 0.000007, 1.999994, 2.000002, //
    1.000002, 2.000002, -3.000001, 2.000001, 1.999999, //
    1.000001, 2.000001, -2.999997, 2.000001, 1.999999,
];

fn run(a: &ArrayNd, occ: Occurrence, fa: FlattenAxis) -> Result<ArrayNd, AxisBoundsError> {
    uniquetol_nd(a, tols(), NanComparison::default(), occ, fa, &envelope)
}

#[test]
fn test_uniquetol_2d_none() {
    let result = run(&array(&[4, 3], &ARR_2D), Occurrence::default(), FlattenAxis::Whole).unwrap();
    assert_eq!(result.shape, vec![5]);
    assert_eq!(floats(&result), vec![-4.300000, -3.000001, 0.000000, 1.000000, 1.999996]);
}

#[test]
fn test_uniquetol_2d_0() {
    let result = run(&array(&[4, 3], &ARR_2D), Occurrence::default(), FlattenAxis::Dim(0)).unwrap();
    assert_eq!(result.shape, vec![2, 3]);
    assert_eq!(
        floats(&result),
        vec![-4.300000, 1.999996, -0.000000, 1.000000, 2.000000, -3.000001]
    );
}

#[test]
fn test_uniquetol_2d_1() {
    let result = run(&array(&[4, 3], &ARR_2D), Occurrence::default(), FlattenAxis::Dim(1)).unwrap();
    assert_eq!(result.shape, vec![4, 3]);
    assert_eq!(
        floats(&result),
        vec![
            -3.000001, 1.000000, 2.000000, //
            -2.999997, 1.000001, 2.000001, //
            0.000000, -4.300000, 1.999996, //
            -2.999998, 1.000002, 2.000002,
        ]
    );
}

#[test]
fn test_uniquetol_3d_none() {
    let result = run(&array(&[2, 4, 5], &ARR_3D), Occurrence::Highest, FlattenAxis::Whole).unwrap();
    assert_eq!(result.shape, vec![6]);
    assert_eq!(
        floats(&result),
        vec![2.000002, 1.000002, 0.000007, -2.999997, -3.777771, -4.299994]
    );
}

#[test]
fn test_uniquetol_3d_0() {
    let result = run(&array(&[2, 4, 5], &ARR_3D), Occurrence::Highest, FlattenAxis::Dim(0)).unwrap();
    assert_eq!(result.shape, vec![2, 4, 5]);
}

#[test]
fn test_uniquetol_3d_1() {
    let result = run(&array(&[2, 4, 5], &ARR_3D), Occurrence::Highest, FlattenAxis::Dim(1)).unwrap();
    assert_eq!(result.shape, vec![2, 3, 5]);
}

#[test]
fn test_uniquetol_3d_2() {
    let result = run(&array(&[2, 4, 5], &ARR_3D), Occurrence::Highest, FlattenAxis::Dim(2)).unwrap();
    assert_eq!(result.shape, vec![2, 4, 3]);
}

#[test]
fn rows_collapse_highest_keeps_last_member() {
    let result = run(&array(&[4, 3], &ARR_2D), Occurrence::Highest, FlattenAxis::Dim(0)).unwrap();
    assert_eq!(result.shape, vec![2, 3]);
    // the last column orders the group of rows 0, 1, 3 as 0, 3, 1
    assert_eq!(
        floats(&result),
        vec![-4.300000, 1.999996, -0.000000, 1.000001, 2.000001, -2.999997]
    );
}

#[test]
fn axis_out_of_bounds() {
    let r = run(&array(&[4, 3], &ARR_2D), Occurrence::Lowest, FlattenAxis::Dim(5));
    assert_eq!(r, Err(AxisBoundsError { axis: 5, ndim: 2 }));
    let r = run(&array(&[4, 3], &ARR_2D), Occurrence::Lowest, FlattenAxis::Dim(2));
    assert_eq!(r, Err(AxisBoundsError { axis: 2, ndim: 2 }));
}

#[test]
fn empty_arrays() {
    let r = run(&array(&[0], &[]), Occurrence::Lowest, FlattenAxis::Whole).unwrap();
    assert_eq!(r.shape, vec![0]);
    assert!(r.data.is_empty());
    let r = run(&array(&[0, 3], &[]), Occurrence::Lowest, FlattenAxis::Dim(0)).unwrap();
    assert_eq!(r.shape, vec![0, 3]);
    let r = run(&array(&[3, 0], &[]), Occurrence::Lowest, FlattenAxis::Dim(0)).unwrap();
    assert_eq!(r.shape, vec![1, 0]);
}

#[test]
fn shape_checks() {
    assert!(ArrayNd::from_shape_vec(vec![2, 3], vec![0; 6]).is_some());
    assert!(ArrayNd::from_shape_vec(vec![2, 3], vec![0; 5]).is_none());
    assert!(ArrayNd::from_shape_vec(vec![], vec![7]).is_some());
    assert!(ArrayNd::from_shape_vec(vec![usize::MAX, 2], vec![0; 2]).is_none());
    assert!(ArrayNd::from_shape_vec(vec![usize::MAX, 0, usize::MAX], vec![]).is_some());
    assert_eq!(array(&[2, 4, 5], &ARR_3D).ndim(), 3);
}
