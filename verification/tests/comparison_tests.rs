use profiler_core::comparison::{
    compare_performance_snapshots, ComparisonResult, DiffType, MethodStats, SnapshotEntry,
};

fn entry(key: &str, avg: f64) -> SnapshotEntry {
    let fp = (avg * 1000.0).round() as u64;
    SnapshotEntry {
        method_key: key.to_string(),
        stats: MethodStats { average_duration: fp, executions: vec![fp] },
    }
}

fn find<'a>(results: &'a [ComparisonResult], key: &str) -> &'a ComparisonResult {
    results.iter().find(|r| r.method_key == key).unwrap()
}

fn percentage(r: &ComparisonResult) -> f64 {
    let p = r.percentage_change.unwrap();
    p.num as f64 / p.den as f64
}

#[test]
fn test_regression_detection() {
    let baseline = vec![entry("ClassA.method1", 100.0), entry("ClassB.method2", 50.0)];
    let current = vec![entry("ClassA.method1", 110.0), entry("ClassB.method2", 45.0)];

    let results = compare_performance_snapshots(&baseline, &current, 5000);

    let method1 = find(&results, "ClassA.method1");
    assert_eq!(method1.diff_type, DiffType::Regressed);
    assert_eq!(percentage(method1), 10.0);

    let method2 = find(&results, "ClassB.method2");
    assert_eq!(method2.diff_type, DiffType::Improved);
    assert_eq!(percentage(method2), -10.0);
}

#[test]
fn test_new_and_removed_methods() {
    let baseline = vec![entry("ClassA.oldMethod", 100.0)];
    let current = vec![entry("ClassB.newMethod", 50.0)];

    let results = compare_performance_snapshots(&baseline, &current, 5000);
    assert_eq!(results.len(), 2);

    let removed = results.iter().find(|r| r.diff_type == DiffType::Removed).unwrap();
    assert_eq!(removed.method_key, "ClassA.oldMethod");

    let new = results.iter().find(|r| r.diff_type == DiffType::New).unwrap();
    assert_eq!(new.method_key, "ClassB.newMethod");
}

#[test]
fn test_unchanged_within_threshold() {
    let baseline = vec![entry("ClassA.method1", 100.0)];
    let current = vec![entry("ClassA.method1", 102.0)];

    let results = compare_performance_snapshots(&baseline, &current, 5000);
    assert_eq!(results[0].diff_type, DiffType::Unchanged);
    assert_eq!(percentage(&results[0]), 2.0);
}

#[test]
fn test_threshold_boundary_is_unchanged() {
    let baseline = vec![entry("A", 100.0)];
    let current = vec![entry("A", 105.0)];

    let results = compare_performance_snapshots(&baseline, &current, 5000);
    assert_eq!(results[0].diff_type, DiffType::Unchanged);
    assert_eq!(percentage(&results[0]), 5.0);

    let above = vec![entry("A", 105.001)];
    let results = compare_performance_snapshots(&baseline, &above, 5000);
    assert_eq!(results[0].diff_type, DiffType::Regressed);
}

#[test]
fn test_zero_baseline_is_regression_without_percentage() {
    let baseline = vec![entry("A", 0.0)];
    let current = vec![entry("A", 10.0)];

    let results = compare_performance_snapshots(&baseline, &current, 5000);
    assert_eq!(results[0].diff_type, DiffType::Regressed);
    assert!(results[0].percentage_change.is_none());
    assert_eq!(results[0].absolute_change, Some(10_000_i128));
}

#[test]
fn test_results_sorted_by_change_magnitude() {
    let baseline = vec![entry("small", 100.0), entry("big", 100.0), entry("gone", 1.0)];
    let current = vec![entry("small", 101.0), entry("big", 150.0)];

    let results = compare_performance_snapshots(&baseline, &current, 5000);
    assert_eq!(results.len(), 3);
    assert_eq!(results[0].method_key, "big");
    assert_eq!(results[1].method_key, "small");
    // removed rows sort with magnitude zero, after every real change
    assert_eq!(results[2].method_key, "gone");
    assert_eq!(results[2].diff_type, DiffType::Removed);
}

#[test]
fn test_equal_magnitudes_keep_first_appearance_order() {
    let baseline = vec![entry("alpha", 100.0), entry("beta", 200.0)];
    let current = vec![entry("alpha", 110.0), entry("beta", 210.0)];

    let results = compare_performance_snapshots(&baseline, &current, 5000);
    assert_eq!(results[0].method_key, "alpha");
    assert_eq!(results[1].method_key, "beta");
}

#[test]
fn test_fields_of_paired_rows() {
    let baseline = vec![entry("A", 2.0)];
    let current = vec![entry("A", 1.0)];

    let results = compare_performance_snapshots(&baseline, &current, 10_000);
    let row = &results[0];
    assert_eq!(row.baseline_avg, Some(2000));
    assert_eq!(row.current_avg, Some(1000));
    assert_eq!(row.absolute_change, Some(-1000_i128));
    assert_eq!(percentage(row), -50.0);
    assert_eq!(row.diff_type, DiffType::Improved);
}
