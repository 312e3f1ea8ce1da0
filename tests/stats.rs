use cvetracker::stats::{
    contains_vulnerability_functions, histogram, subject_package, min_max, per_function_callers, subject_stats, total_callers, unique_call_paths, CallerEntry,
    FunctionResult,
};

fn caller(path: Option<&str>, pc: Option<i64>, pkg: Option<i64>) -> CallerEntry {
    CallerEntry { path: path.map(|s| s.to_string()), path_constraints: pc, path_package_num: pkg }
}

fn result(function: &str, callers: Vec<CallerEntry>) -> FunctionResult {
    FunctionResult { function: function.to_string(), callers }
}

#[test]
fn histogram_counts_sorted_values() {
    assert_eq!(histogram(&vec![3, -1, 3, 7, 3, -1]), vec![(-1, 2), (3, 3), (7, 1)]);
    assert_eq!(histogram(&vec![]), vec![]);
    assert_eq!(histogram(&vec![i64::MAX, i64::MIN]), vec![(i64::MIN, 1), (i64::MAX, 1)]);
}

#[test]
fn min_and_max() {
    assert_eq!(min_max(&vec![]), None);
    assert_eq!(min_max(&vec![4]), Some((4, 4)));
    assert_eq!(min_max(&vec![4, -2, 9, 0]), Some((-2, 9)));
}

#[test]
fn callers_per_subject_and_function() {
    let results = vec![
        result("digest", vec![caller(Some("a::b"), Some(1), None), caller(Some("a::c"), Some(2), Some(3))]),
        result("update", vec![caller(None, None, None)]),
        result("digest", vec![caller(Some("a::b"), Some(5), Some(1))]),
    ];
    assert_eq!(total_callers(&results), 4);
    assert_eq!(per_function_callers(&results), vec![("digest".to_string(), 3), ("update".to_string(), 1)]);
    let s = subject_stats("libB-0.1.0".to_string(), &results);
    assert_eq!(s.subject, "libB-0.1.0");
    assert_eq!(s.total_callers, 4);
    assert_eq!(s.per_function_callers.len(), 2);
    let all: Vec<CallerEntry> = results.iter().flat_map(|r| r.callers.clone()).collect();
    assert_eq!(unique_call_paths(&all), 2);
    assert_eq!(total_callers(&vec![]), 0);
}

#[test]
fn vulnerability_callers_present() {
    assert!(!contains_vulnerability_functions(&vec![]));
    assert!(!contains_vulnerability_functions(&vec![result("f", vec![])]));
    assert!(contains_vulnerability_functions(&vec![result("f", vec![]), result("g", vec![caller(None, None, None)])]));
}

#[test]
fn subject_names_split_at_last_dash() {
    assert_eq!(subject_package("cargo-audit-0.21.2"), Some(("cargo-audit".to_string(), "0.21.2".to_string())));
    assert_eq!(subject_package("libB-0.1.0-beta"), Some(("libB-0.1.0".to_string(), "beta".to_string())));
    assert_eq!(subject_package("plain"), None);
}
