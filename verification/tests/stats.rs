use des::stats::EmpiricalCdf;

fn key(x: f64) -> u64 {
    x.to_bits()
}

fn ratio(r: (usize, usize)) -> f64 {
    r.0 as f64 / r.1 as f64
}

#[test]
fn empirical_cdf_tail_prob() {
    let mut cdf = EmpiricalCdf::new();
    for x in [1.0_f64, 2.0, 3.0, 4.0, 5.0] {
        cdf.push(key(x));
    }
    cdf.finish();
    let p = ratio(cdf.tail_prob(key(3.0)));
    // 4 and 5 exceed 3.0, so P{X > 3} = 2/5 = 0.4
    assert!((p - 0.4).abs() < 1e-10, "tail prob {p}");
}

#[test]
fn empirical_cdf_empty_has_zero_tail() {
    let mut cdf = EmpiricalCdf::new();
    assert!(cdf.is_empty());
    cdf.finish();
    assert_eq!(cdf.tail_prob(key(1.0)), (0, 1));
    assert_eq!(ratio(cdf.tail_prob(key(1.0))), 0.0);
}

#[test]
fn empirical_cdf_counts_duplicates_and_sorts() {
    let mut cdf = EmpiricalCdf::new();
    for x in [5.0_f64, 1.0, 3.0, 3.0, 2.0, 3.0] {
        cdf.push(key(x));
    }
    assert_eq!(cdf.len(), 6);
    cdf.finish();
    assert_eq!(cdf.tail_prob(key(3.0)), (1, 6));
    assert_eq!(cdf.tail_prob(key(2.5)), (4, 6));
    assert_eq!(cdf.tail_prob(key(0.0)), (6, 6));
    assert_eq!(cdf.tail_prob(key(9.0)), (0, 6));
    let sorted: Vec<f64> = (0..6).map(|i| f64::from_bits(cdf.value_at(i))).collect();
    assert_eq!(sorted, vec![1.0, 2.0, 3.0, 3.0, 3.0, 5.0]);
    let copy = cdf.clone();
    assert_eq!(copy.tail_prob(key(2.5)), (4, 6));
}
