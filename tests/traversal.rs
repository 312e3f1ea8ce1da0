use cvetracker::dependents::expand_dependents;
use cvetracker::error::TrackerError;
use cvetracker::model::ReverseDependency;
use cvetracker::runner::{
    analysis_outcome, deadline_action, prefilter_verdict, target_leaf_names, ExitKind, RunnerAction, SearchResult,
};
use cvetracker::traversal::{flatten_groups, AnalysisOutcome, NodePlan, Traversal};

fn dep(name: &str, version: &str, req: &str) -> ReverseDependency {
    ReverseDependency::new(name.to_string(), version.to_string(), req.to_string())
}

fn keys(t: &Traversal) -> Vec<(String, String)> {
    (0..t.len()).map(|i| (t.node(i).name.clone(), t.node(i).version.clone())).collect()
}

fn seeded(name: &str, versions: &[&str], range: &str) -> Traversal {
    let mut t = Traversal::new("work", "CVE-1");
    let versions: Vec<String> = versions.iter().map(|s| s.to_string()).collect();
    t.seed(&name.to_string(), &versions, range).unwrap();
    t
}

#[test]
fn single_hop_reach() {
    let mut t = seeded("libA", &["1.0.0"], "=1.0.0");
    let mut levels = 0;
    let mut artifacts = Vec::new();
    while !t.is_done() {
        levels += 1;
        let level = t.pop_level();
        for id in level {
            let outcome = match t.plan(id) {
                NodePlan::Expand => AnalysisOutcome::NotReached,
                NodePlan::Analyze { working_dir, parent_name, parent_version } => {
                    assert_eq!(working_dir, "work/CVE-1/libA-workspace/libA-1.0.0/libB-workspace/libB-0.1.0");
                    assert_eq!((parent_name.as_str(), parent_version.as_str()), ("libA", "1.0.0"));
                    analysis_outcome(ExitKind::Success, Some("[{\"file\":\"callers-f.json\"}]".to_string()))
                }
            };
            let c = t.conclude(id, &outcome, "analysis_results", "CVE-1");
            if let Some(a) = c.artifact {
                artifacts.push(a);
            }
            if c.expand {
                let node = t.node(id);
                let deps = if node.name == "libA" { vec![dep("libB", "0.1.0", "=1.0.0")] } else { vec![] };
                let groups = expand_dependents(&deps, &node.version.clone()).unwrap();
                t.offer_children(id, &flatten_groups(&groups));
            }
        }
    }
    assert_eq!(levels, 2);
    assert_eq!(keys(&t), vec![
        ("libA".to_string(), "1.0.0".to_string()),
        ("libB".to_string(), "0.1.0".to_string()),
    ]);
    assert_eq!(artifacts, vec![(
        "analysis_results/CVE-1/libB-0.1.0.txt".to_string(),
        "[{\"file\":\"callers-f.json\"}]".to_string(),
    )]);
}

#[test]
fn prefilter_miss_spawns_nothing() {
    let needles = target_leaf_names("libA::m::f");
    assert_eq!(needles, vec!["f".to_string()]);
    let verdict = prefilter_verdict(&vec![SearchResult::Miss]);
    assert_eq!(verdict, Ok(false));
    let mut t = seeded("libA", &["1.0.0"], "=1.0.0");
    let root = t.pop_level()[0];
    let root_c = t.conclude(root, &AnalysisOutcome::NotReached, "analysis_results", "CVE-1");
    assert!(root_c.expand && root_c.artifact.is_none());
    t.offer_children(root, &vec![dep("libB", "0.1.0", "=1.0.0")]);
    let b = t.pop_level()[0];
    let c = t.conclude(b, &AnalysisOutcome::NotReached, "analysis_results", "CVE-1");
    assert!(c.artifact.is_none());
    assert!(!c.expand);
}

#[test]
fn analyzer_timeout_makes_node_barren() {
    assert_eq!(deadline_action(1000, None, 1100), RunnerAction::WaitUntil(1240));
    assert_eq!(deadline_action(1000, None, 1240), RunnerAction::Terminate);
    assert_eq!(deadline_action(1000, Some(1240), 1245), RunnerAction::WaitUntil(1250));
    assert_eq!(deadline_action(1000, Some(1240), 1250), RunnerAction::Kill);
    let outcome = analysis_outcome(ExitKind::TimedOut, None);
    assert_eq!(outcome, AnalysisOutcome::Failed(TrackerError::AnalyzerTimeout));
    let mut t = seeded("libA", &["1.0.0"], "=1.0.0");
    let root = t.pop_level()[0];
    t.offer_children(root, &vec![dep("libB", "0.1.0", "=1.0.0"), dep("libC", "0.1.0", "=1.0.0")]);
    let level = t.pop_level();
    let hung = t.conclude(level[0], &outcome, "analysis_results", "CVE-1");
    assert!(hung.artifact.is_none() && !hung.expand);
    let sibling = t.conclude(level[1], &AnalysisOutcome::Reached("[]".to_string()), "analysis_results", "CVE-1");
    assert!(sibling.artifact.is_some() && sibling.expand);
}

#[test]
fn duplicate_dependent_visited_once() {
    let mut t = seeded("libA", &["1.0.0"], "=1.0.0");
    let root = t.pop_level()[0];
    t.offer_children(root, &vec![dep("libB", "1.0.0", "^1"), dep("libC", "1.0.0", "^1")]);
    let level = t.pop_level();
    t.offer_children(level[0], &vec![dep("libX", "2.0.0", "^1")]);
    t.offer_children(level[1], &vec![dep("libX", "2.0.0", "^1")]);
    let last = t.pop_level();
    assert_eq!(last.len(), 1);
    assert_eq!(t.node(last[0]).name, "libX");
    assert_eq!(t.node(last[0]).parent, Some(level[0]));
    assert!(t.is_done());
}

#[test]
fn root_seeded_by_two_endpoints() {
    let t = seeded("libA", &["0.5.0", "0.9.0", "1.0.0", "1.1.0", "1.2.0"], ">=1.0.0, <1.2.0");
    assert_eq!(keys(&t), vec![
        ("libA".to_string(), "1.0.0".to_string()),
        ("libA".to_string(), "1.1.0".to_string()),
    ]);
    assert_eq!(t.node(0).parent, None);
    assert_eq!(t.node(0).level, 0);
}

#[test]
fn empty_range_finishes_at_once() {
    let mut t = seeded("libA", &["0.5.0"], ">=1.0.0");
    assert_eq!(t.len(), 0);
    assert!(t.is_done());
    assert!(t.pop_level().is_empty());
    assert!(t.is_done());
}

#[test]
fn one_matching_version_one_seed() {
    let t = seeded("libA", &["0.5.0", "1.0.0"], ">=1.0.0");
    assert_eq!(keys(&t), vec![("libA".to_string(), "1.0.0".to_string())]);
}

#[test]
fn bad_range_refuses_to_seed() {
    let mut t = Traversal::new("work", "CVE-1");
    let r = t.seed(&"libA".to_string(), &vec!["1.0.0".to_string()], "!!");
    assert_eq!(r, Err(TrackerError::RangeUnparseable));
    assert_eq!(t.len(), 0);
}

#[test]
fn parent_precedes_child_and_dirs_differ() {
    let mut t = seeded("libA", &["1.0.0", "1.1.0"], ">=1.0.0");
    let roots = t.pop_level();
    t.offer_children(roots[0], &vec![dep("libB", "1.0.0", "^1")]);
    t.offer_children(roots[1], &vec![dep("libC", "3.0.0", "^1")]);
    let level = t.pop_level();
    t.offer_children(level[0], &vec![dep("libD", "0.1.0", "*")]);
    for id in 0..t.len() {
        if let Some(p) = t.node(id).parent {
            assert!(p < id);
            assert!(t.node(p).level < t.node(id).level);
        }
        for other in 0..t.len() {
            if other != id {
                assert_ne!(t.working_dir(id), t.working_dir(other));
            }
        }
    }
    assert_eq!(t.working_dir(4), "work/CVE-1/libA-workspace/libA-1.0.0/libB-workspace/libB-1.0.0/libD-workspace/libD-0.1.0");
}

#[test]
fn two_runs_agree() {
    let run = || {
        let mut t = seeded("libA", &["1.0.0", "2.0.0"], "*");
        let roots = t.pop_level();
        for r in roots {
            t.offer_children(r, &vec![dep("libB", "1.0.0", "*"), dep("libC", "1.0.0", "*")]);
        }
        keys(&t)
    };
    assert_eq!(run(), run());
}

#[test]
fn unparseable_node_version_cannot_expand() {
    let r = expand_dependents(&vec![dep("libB", "0.1.0", "*")], "x.y");
    assert_eq!(r.err(), Some(TrackerError::VersionUnparseable));
}
