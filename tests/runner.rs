use cvetracker::error::TrackerError;
use cvetracker::runner::{
    analysis_outcome, assemble_report, caller_record_of, classify_search, is_callers_file, json_array_of,
    prefilter_verdict, target_leaf_names, ExitKind, SearchResult,
};
use cvetracker::traversal::AnalysisOutcome;

fn files(v: &[(&str, &str)]) -> Vec<(String, String)> {
    v.iter().map(|(a, b)| (a.to_string(), b.to_string())).collect()
}

#[test]
fn leaf_names_of_targets() {
    let r = target_leaf_names("gix::hash::Hasher::digest, gix::hash::bytes ,, plain ,");
    assert_eq!(r, vec!["digest".to_string(), "bytes".to_string(), "plain".to_string()]);
    assert!(target_leaf_names("").is_empty());
    assert_eq!(target_leaf_names("a::"), vec!["".to_string()]);
}

#[test]
fn search_exit_codes() {
    assert_eq!(classify_search(Some(0), false), SearchResult::Hit);
    assert_eq!(classify_search(Some(1), true), SearchResult::Miss);
    assert_eq!(classify_search(Some(1), false), SearchResult::Failed);
    assert_eq!(classify_search(Some(2), true), SearchResult::Failed);
    assert_eq!(classify_search(None, true), SearchResult::Failed);
}

#[test]
fn prefilter_first_decisive_search_wins() {
    assert_eq!(prefilter_verdict(&vec![]), Ok(false));
    assert_eq!(prefilter_verdict(&vec![SearchResult::Miss, SearchResult::Hit, SearchResult::Failed]), Ok(true));
    assert_eq!(prefilter_verdict(&vec![SearchResult::Miss, SearchResult::Failed, SearchResult::Hit]), Err(TrackerError::SearchFailed));
}

#[test]
fn callers_file_pattern() {
    assert!(is_callers_file("callers-digest.json"));
    assert!(is_callers_file("callers-.json"));
    assert!(!is_callers_file("caller-digest.json"));
    assert!(!is_callers_file("callers-digest.json.bak"));
    assert!(!is_callers_file("callers.json"));
}

#[test]
fn no_callers_files_means_not_reached() {
    let report = assemble_report(&files(&[("stats.json", "{}"), ("callers.txt", "x")]));
    assert_eq!(report, None);
    assert_eq!(analysis_outcome(ExitKind::Success, report), AnalysisOutcome::NotReached);
    assert_eq!(assemble_report(&Vec::new()), None);
}

#[test]
fn report_joins_caller_records() {
    let report = assemble_report(&files(&[
        ("callers-f.json", "{\"callers\":[{\"path\":\"a\",\"path_constraints\":1}]}"),
        ("log.txt", "ignored"),
        ("callers-g.json", "not json"),
    ]))
    .unwrap();
    assert_eq!(
        report,
        "[{\"file\":\"callers-f.json\",\"file-content\":{\"callers\":[{\"path\":\"a\",\"path_constraints\":1}]}},{\"file\":\"callers-g.json\",\"file-content\":\"not json\"}]"
    );
    let parsed: serde_json::Value = serde_json::from_str(&report).unwrap();
    assert_eq!(parsed[0]["file-content"]["callers"][0]["path"], "a");
}

#[test]
fn record_and_array_layout() {
    assert_eq!(caller_record_of("\"n\"", "1"), "{\"file\":\"n\",\"file-content\":1}");
    assert_eq!(json_array_of(&vec![]), "[]");
    assert_eq!(json_array_of(&vec!["1".to_string(), "2".to_string()]), "[1,2]");
}

#[test]
fn exit_kinds_map_to_outcomes() {
    assert_eq!(analysis_outcome(ExitKind::Failure, Some("x".to_string())), AnalysisOutcome::Failed(TrackerError::AnalyzerExitedNonZero));
    assert_eq!(analysis_outcome(ExitKind::Success, Some("x".to_string())), AnalysisOutcome::Reached("x".to_string()));
}

#[test]
fn non_json_contents_are_escaped() {
    let report = assemble_report(&files(&[("callers-q.json", "a\"b\\c\n\u{1}\u{7f}é")])).unwrap();
    assert_eq!(report, "[{\"file\":\"callers-q.json\",\"file-content\":\"a\\\"b\\\\c\\n\\u0001\u{7f}é\"}]");
    let parsed: serde_json::Value = serde_json::from_str(&report).unwrap();
    assert_eq!(parsed[0]["file-content"], "a\"b\\c\n\u{1}\u{7f}é");
}

#[test]
fn targets_trimmed_of_unicode_space() {
    assert_eq!(target_leaf_names("\u{3000}a::f\u{a0}, \u{2009}b::g"), vec!["f".to_string(), "g".to_string()]);
}
