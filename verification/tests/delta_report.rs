use perfdiff::delta::{classify, compare_sets, format_delta, rel_diff, Delta, DeltaClass};
use perfdiff::{Measure, ResultSet};

fn m(a: u64, b: u64, c: u64) -> Measure {
    Measure { ref_cycles: a, instructions: b, cpu_time: c }
}

fn fmt(d: &Delta) -> String {
    String::from_utf8(format_delta(d)).unwrap()
}

#[test]
fn key_intersection_single_row() {
    let mut base = ResultSet::new();
    base.insert(b"a.wat".to_vec(), m(100, 1000, 50));
    base.insert(b"b.wat".to_vec(), m(5, 5, 5));
    let mut compared = ResultSet::new();
    compared.insert(b"a.wat".to_vec(), m(110, 1000, 50));
    let report = compare_sets(&base, &compared);
    assert_eq!(report.len(), 1);
    assert_eq!(report[0].key, b"a.wat".to_vec());
    assert_eq!(report[0].ref_cycles.delta, Delta::Finite { tenths: 100 });
    assert_eq!(fmt(&report[0].ref_cycles.delta), "+10.0%");
    assert_eq!(fmt(&report[0].instructions.delta), "+0.0%");
}

#[test]
fn end_to_end_scenario() {
    let mut base = ResultSet::new();
    base.insert(b"x".to_vec(), m(1000, 2000, 50));
    let mut compared = ResultSet::new();
    compared.insert(b"x".to_vec(), m(900, 2200, 50));
    let report = compare_sets(&base, &compared);
    assert_eq!(report.len(), 1);
    assert_eq!(fmt(&report[0].ref_cycles.delta), "-10.0%");
    assert_eq!(fmt(&report[0].instructions.delta), "+10.0%");
    assert_eq!(fmt(&report[0].cpu_time.delta), "+0.0%");
    assert_eq!(report[0].ref_cycles.class, DeltaClass::Improvement);
    assert_eq!(report[0].instructions.class, DeltaClass::Regression);
    assert_eq!(report[0].cpu_time.class, DeltaClass::Neutral);
}

#[test]
fn rows_follow_base_order() {
    let mut base = ResultSet::new();
    base.insert(b"one".to_vec(), m(10, 10, 10));
    base.insert(b"two".to_vec(), m(10, 10, 10));
    base.insert(b"three".to_vec(), m(10, 10, 10));
    let mut compared = ResultSet::new();
    compared.insert(b"three".to_vec(), m(11, 10, 10));
    compared.insert(b"one".to_vec(), m(12, 10, 10));
    let report = compare_sets(&base, &compared);
    assert_eq!(report.len(), 2);
    assert_eq!(report[0].key, b"one".to_vec());
    assert_eq!(report[1].key, b"three".to_vec());
}

#[test]
fn zero_base_is_undefined_sentinel() {
    assert_eq!(rel_diff(0, 5), Delta::Undefined);
    assert_eq!(rel_diff(0, 0), Delta::Undefined);
    assert_eq!(fmt(&Delta::Undefined), "n/a");
    assert_eq!(classify(0, 5), DeltaClass::Regression);
    assert_eq!(classify(0, 0), DeltaClass::Neutral);
}

#[test]
fn rounding_is_nearest_ties_away() {
    // 7/3 * 100% = 233.33..%, rounds down to 233.3.
    assert_eq!(rel_diff(3, 10), Delta::Finite { tenths: 2333 });
    // exactly half a tenth rounds away from zero.
    assert_eq!(rel_diff(2000, 2001), Delta::Finite { tenths: 1 });
    assert_eq!(rel_diff(2000, 1999), Delta::Finite { tenths: -1 });
    assert_eq!(fmt(&rel_diff(2000, 1999)), "-0.1%");
}

#[test]
fn classification_threshold_is_a_tenth() {
    // +0.1% exactly is neutral; more is a regression.
    assert_eq!(classify(1000, 1001), DeltaClass::Neutral);
    assert_eq!(classify(1000, 1002), DeltaClass::Regression);
    assert_eq!(classify(1000, 999), DeltaClass::Neutral);
    assert_eq!(classify(1000, 998), DeltaClass::Improvement);
    assert_eq!(classify(1000, 1000), DeltaClass::Neutral);
}

#[test]
fn large_deltas_format() {
    assert_eq!(fmt(&rel_diff(1, u64::MAX)), format!("+{}.0%", (u64::MAX - 1) as u128 * 100));
}

#[test]
fn compared_only_keys_are_dropped() {
    let mut base = ResultSet::new();
    base.insert(b"shared".to_vec(), m(10, 10, 10));
    let mut compared = ResultSet::new();
    compared.insert(b"extra".to_vec(), m(1, 1, 1));
    compared.insert(b"shared".to_vec(), m(20, 20, 20));
    let report = compare_sets(&base, &compared);
    assert_eq!(report.len(), 1);
    assert_eq!(report[0].key, b"shared".to_vec());
    assert_eq!(fmt(&report[0].ref_cycles.delta), "+100.0%");
}
