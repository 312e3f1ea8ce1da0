use cvetracker::dependents::{expand_dependents, filter_dependents_by_version_req};
use cvetracker::error::TrackerError;
use cvetracker::model::ReverseDependency;
use cvetracker::select::select_two_end_vers;

fn strings(v: &[&str]) -> Vec<String> {
    v.iter().map(|s| s.to_string()).collect()
}

fn dep(name: &str, version: &str, req: &str) -> ReverseDependency {
    ReverseDependency::new(name.to_string(), version.to_string(), req.to_string())
}

#[test]
fn version_selector_prunes_to_range_endpoints() {
    let versions = strings(&["0.5.0", "0.9.0", "1.0.0", "1.1.0", "1.2.0"]);
    let r = select_two_end_vers(&versions, ">=1.0.0, <1.2.0").unwrap();
    assert_eq!(r, vec![(2, "1.0.0".to_string()), (3, "1.1.0".to_string())]);
}

#[test]
fn unparseable_version_is_skipped() {
    let versions = strings(&["1.0.0", "not-a-version", "1.1.0"]);
    let r = select_two_end_vers(&versions, ">=0.0.0").unwrap();
    assert_eq!(r, vec![(0, "1.0.0".to_string()), (2, "1.1.0".to_string())]);
}

#[test]
fn empty_range_selects_nothing() {
    let versions = strings(&["0.5.0", "1.0.0"]);
    let r = select_two_end_vers(&versions, ">=9.0.0").unwrap();
    assert!(r.is_empty());
    let none: Vec<String> = Vec::new();
    assert!(select_two_end_vers(&none, "*").unwrap().is_empty());
}

#[test]
fn single_match_gives_one_entry() {
    let versions = strings(&["0.5.0", "1.0.0", "2.0.0"]);
    let r = select_two_end_vers(&versions, "=1.0.0").unwrap();
    assert_eq!(r, vec![(1, "1.0.0".to_string())]);
}

#[test]
fn unparseable_range_is_an_error() {
    let versions = strings(&["1.0.0"]);
    assert_eq!(select_two_end_vers(&versions, "@1.0.0"), Err(TrackerError::RangeUnparseable));
}

#[test]
fn endpoints_follow_precedence_not_order() {
    let versions = strings(&["1.10.0", "1.2.0", "1.9.3", "0.3.0", "1.0.0"]);
    let r = select_two_end_vers(&versions, ">=0.0.0").unwrap();
    assert_eq!(r, vec![(3, "0.3.0".to_string()), (0, "1.10.0".to_string())]);
}

#[test]
fn prerelease_precedes_release() {
    let versions = strings(&["1.0.0", "1.0.0-beta.2", "1.0.0-beta.11", "1.0.0-alpha"]);
    let r = select_two_end_vers(&versions, ">=1.0.0-alpha").unwrap();
    assert_eq!(r, vec![(3, "1.0.0-alpha".to_string()), (0, "1.0.0".to_string())]);
    let betas = strings(&["1.0.0-beta.11", "1.0.0-beta.2", "1.0.0-beta"]);
    let r = select_two_end_vers(&betas, ">=1.0.0-alpha").unwrap();
    assert_eq!(r, vec![(2, "1.0.0-beta".to_string()), (0, "1.0.0-beta.11".to_string())]);
}

#[test]
fn equal_precedence_takes_first_and_last() {
    let versions = strings(&["1.0.0+a", "1.0.0+b", "1.0.0+c"]);
    let r = select_two_end_vers(&versions, ">=0.0.0").unwrap();
    assert_eq!(r, vec![(0, "1.0.0+a".to_string()), (2, "1.0.0+c".to_string())]);
}

#[test]
fn caret_requirement_bounds_major() {
    let versions = strings(&["2.9.0", "3.0.0", "3.99.0", "4.0.0", "1.0"]);
    let r = select_two_end_vers(&versions, "^3.0").unwrap();
    assert_eq!(r, vec![(1, "3.0.0".to_string()), (2, "3.99.0".to_string())]);
}

#[test]
fn dependents_filtered_by_requirement() {
    let deps = vec![
        dep("libB", "0.1.0", "=1.0.0"),
        dep("libC", "0.2.0", "^2"),
        dep("libD", "0.3.0", "not a req"),
        dep("libE", "0.4.0", ">=0.9"),
    ];
    let kept = filter_dependents_by_version_req(&deps, "1.0.0").unwrap();
    assert_eq!(kept, vec![dep("libB", "0.1.0", "=1.0.0"), dep("libE", "0.4.0", ">=0.9")]);
    assert_eq!(filter_dependents_by_version_req(&deps, "one"), Err(TrackerError::VersionUnparseable));
}

#[test]
fn dependent_without_matching_requirement_contributes_no_child() {
    let deps = vec![dep("libB", "0.1.0", "=0.9.0"), dep("libB", "0.2.0", "^0.9")];
    let groups = expand_dependents(&deps, "1.0.0").unwrap();
    assert!(groups.is_empty());
}

#[test]
fn expansion_keeps_two_versions_per_dependent() {
    let deps = vec![
        dep("libB", "0.3.0", "^1"),
        dep("libC", "2.0.0", "^1"),
        dep("libB", "0.1.0", "^1"),
        dep("libB", "0.2.0", "^1"),
        dep("libB", "0.4.0", "=0.5"),
    ];
    let groups = expand_dependents(&deps, "1.0.0").unwrap();
    assert_eq!(groups.len(), 2);
    assert_eq!(groups[0].0, "libB");
    assert_eq!(groups[0].1, vec![dep("libB", "0.1.0", "^1"), dep("libB", "0.3.0", "^1")]);
    assert_eq!(groups[1].0, "libC");
    assert_eq!(groups[1].1, vec![dep("libC", "2.0.0", "^1")]);
}
