use uniquetol::{isapprox, sortperm, uniquetol_1d, NanComparison, Occurrence, Tols};

fn envelope(x: u64, y: u64, t: Tols) -> bool {
    let (x, y) = (f64::from_bits(x), f64::from_bits(y));
    let (atol, rtol) = (f64::from_bits(t.atol), f64::from_bits(t.rtol));
    let tol = atol.max(rtol * x.abs().max(y.abs()));
    (x - y).abs() <= tol
}

fn bits(v: &[f64]) -> Vec<u64> {
    v.iter().map(|x| x.to_bits()).collect()
}

fn floats(v: &[u64]) -> Vec<f64> {
    v.iter().map(|x| f64::from_bits(*x)).collect()
}

fn tols(atol: f64, rtol: f64) -> Tols {
    Tols::new(atol.to_bits(), rtol.to_bits()).unwrap()
}

const SAMPLE: [f64; 12] = [
    1.0, 2.0, -3.000001, 1.000001, 2.000001, -2.999997, -4.3, 1.999996, -0.0, 1.000002, 2.000002,
    -2.999998,
];

#[test]
fn scenario_two_groups() {
    let arr = bits(&[1.0, 1.0000001, 2.0, 1.9999999]);
    let r = uniquetol_1d(&arr, tols(1e-5, 0.0), NanComparison::Equal, Occurrence::Lowest, &envelope);
    let values = floats(&r.arr_unique);
    assert_eq!(values.len(), 2);
    assert!((values[0] - 1.0).abs() < 1e-5 && (values[1] - 2.0).abs() < 1e-5);
    assert_eq!(values, vec![1.0, 1.9999999]);
    assert_eq!(r.counts_unique, vec![2, 2]);
    // ascending order puts 1.9999999 (index 3) first in the second group
    assert_eq!(r.indices_unique, vec![0, 3]);
    assert_eq!(r.inverse_unique, vec![0, 0, 1, 1]);
    assert_eq!(r.get_len_unique(), 2);
    assert_eq!(r.get_len_original(), 4);
}

#[test]
fn scenario_two_groups_highest() {
    let arr = bits(&[1.0, 1.0000001, 2.0, 1.9999999]);
    let r = uniquetol_1d(&arr, tols(1e-5, 0.0), NanComparison::Equal, Occurrence::Highest, &envelope);
    assert_eq!(floats(&r.arr_unique), vec![2.0, 1.0000001]);
    assert_eq!(r.counts_unique, vec![2, 2]);
    assert_eq!(r.indices_unique, vec![2, 1]);
    assert_eq!(r.inverse_unique, vec![1, 1, 0, 0]);
}

#[test]
fn empty_input() {
    let r = uniquetol_1d(&Vec::new(), Tols::default(), NanComparison::Equal, Occurrence::Lowest, &envelope);
    assert!(r.arr_unique.is_empty());
    assert!(r.indices_unique.is_empty());
    assert!(r.inverse_unique.is_empty());
    assert!(r.counts_unique.is_empty());
}

#[test]
fn groups_cover_input() {
    let t = tols(1e-5, 1e-2);
    for occ in [Occurrence::Lowest, Occurrence::Highest] {
        let arr = bits(&SAMPLE);
        let r = uniquetol_1d(&arr, t, NanComparison::Equal, occ, &envelope);
        assert_eq!(r.counts_unique.iter().sum::<usize>(), arr.len());
        for (i, &g) in r.inverse_unique.iter().enumerate() {
            assert!(isapprox(r.arr_unique[g], arr[i], t, NanComparison::Equal, &envelope));
        }
        let remapped = r.remap_to_original();
        assert_eq!(remapped.len(), arr.len());
        for (i, &v) in remapped.iter().enumerate() {
            assert_eq!(v, r.arr_unique[r.inverse_unique[i]]);
        }
    }
}

#[test]
fn unique_values_are_ordered() {
    let t = tols(1e-5, 1e-2);
    let arr = bits(&SAMPLE);
    let low = floats(&uniquetol_1d(&arr, t, NanComparison::Equal, Occurrence::Lowest, &envelope).arr_unique);
    assert_eq!(low, vec![-4.3, -3.000001, 0.0, 1.0, 1.999996]);
    assert!(low.windows(2).all(|w| w[0] <= w[1]));
    let high = floats(&uniquetol_1d(&arr, t, NanComparison::Equal, Occurrence::Highest, &envelope).arr_unique);
    assert_eq!(high, vec![2.000002, 1.000002, -0.0, -2.999997, -4.3]);
    assert!(high.windows(2).all(|w| w[0] >= w[1]));
    for w in low.windows(2) {
        assert!(!isapprox(w[0].to_bits(), w[1].to_bits(), t, NanComparison::Equal, &envelope));
    }
}

#[test]
fn idempotent_on_unique_values() {
    let t = tols(1e-5, 1e-2);
    for occ in [Occurrence::Lowest, Occurrence::Highest] {
        let first = uniquetol_1d(&bits(&SAMPLE), t, NanComparison::Equal, occ, &envelope);
        let second = uniquetol_1d(&first.arr_unique, t, NanComparison::Equal, occ, &envelope);
        assert_eq!(second.arr_unique, first.arr_unique);
        assert!(second.counts_unique.iter().all(|&c| c == 1));
        assert_eq!(second.indices_unique, (0..first.arr_unique.len()).collect::<Vec<usize>>());
    }
}

#[test]
fn fixed_anchor_limits_group_span() {
    // each neighbour is within 1.5 of the previous, but 3.0 is not within 1.5 of 0.0
    let arr = bits(&[0.0, 1.0, 2.0, 3.0]);
    let r = uniquetol_1d(&arr, tols(1.5, 0.0), NanComparison::Equal, Occurrence::Lowest, &envelope);
    assert_eq!(floats(&r.arr_unique), vec![0.0, 2.0]);
    assert_eq!(r.counts_unique, vec![2, 2]);
}

#[test]
fn nan_values_group_by_policy() {
    let arr = bits(&[f64::NAN, 1.0, f64::NAN, 1.0]);
    let eq = uniquetol_1d(&arr, Tols::default(), NanComparison::Equal, Occurrence::Lowest, &envelope);
    assert_eq!(eq.counts_unique, vec![2, 2]);
    assert_eq!(eq.indices_unique, vec![1, 0]);
    assert!(f64::from_bits(eq.arr_unique[1]).is_nan());
    let ne = uniquetol_1d(&arr, Tols::default(), NanComparison::NotEqual, Occurrence::Lowest, &envelope);
    assert_eq!(ne.counts_unique, vec![2, 1, 1]);
    assert_eq!(ne.indices_unique, vec![1, 0, 2]);
}

#[test]
fn sortperm_is_stable() {
    let arr = bits(&[3.0, 1.0, 3.0, -0.0, 0.0, f64::NAN, 2.0]);
    assert_eq!(sortperm(&arr, false), vec![3, 4, 1, 6, 0, 2, 5]);
    assert_eq!(sortperm(&arr, true), vec![5, 0, 2, 6, 1, 3, 4]);
}

#[test]
fn sortperm_large_input() {
    let values: Vec<f64> = (0..2000u64).map(|i| ((i * 7919) % 1009) as f64 - 500.0).collect();
    let arr = bits(&values);
    for reverse in [false, true] {
        let perm = sortperm(&arr, reverse);
        let mut seen = vec![false; arr.len()];
        for &i in perm.iter() {
            assert!(!seen[i]);
            seen[i] = true;
        }
        for w in perm.windows(2) {
            let (a, b) = (values[w[0]], values[w[1]]);
            if a == b {
                assert!(w[0] < w[1]);
            } else if reverse {
                assert!(a > b);
            } else {
                assert!(a < b);
            }
        }
    }
}
