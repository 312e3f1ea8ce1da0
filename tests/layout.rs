use cvetracker::enhanced::{DependencyGraphBuilder, PackageVersion};
use cvetracker::error::TrackerError;
use cvetracker::graph::{extract_function_name, DependencyGraph, PackageId};
use cvetracker::materialize::{copy_step, fetch_attempt, needs_download, unzip_step, validate_copied_files, CopyStep, Krate, UnzipStep, download_usable};
use cvetracker::paths::{analyzer_log_paths_of, artifact_path_of, download_url_of};
use cvetracker::report::{assess_function_risk, RiskLevel};
use cvetracker::stats::{analysis_results_dir, function_from_file_key};
use cvetracker::workspace::CrateWorkspaceFileSystemManager;

#[test]
fn artifact_and_download_names() {
    assert_eq!(artifact_path_of("analysis_results", "CVE-2025-1", "libB", "0.1.0"), "analysis_results/CVE-2025-1/libB-0.1.0.txt");
    assert_eq!(download_url_of("serde", "1.0.0"), "https://crates.io/api/v1/crates/serde/1.0.0/download");
    assert_eq!(
        analyzer_log_paths_of("logs/CVE_1", "libB", "0.1.0"),
        ("logs/CVE_1/cg4rs_libB_0.1.0.log".to_string(), "logs/CVE_1/cg4rs_libB_0.1.0_error.log".to_string())
    );
    assert_eq!(analysis_results_dir("/repo"), "/repo/analysis_results");
}

#[test]
fn krate_paths() {
    let k = Krate::new("tokio".to_string(), "1.0.0".to_string(), 0, 1, "w/tokio-1.0.0".to_string());
    assert_eq!(k.get_download_crate_dir_path("./downloads"), "./downloads/tokio");
    assert_eq!(k.get_download_crate_file_path("./downloads"), "./downloads/tokio/tokio-1.0.0.crate");
    assert_eq!(k.get_extract_crate_dir_path("./downloads"), "./downloads/tokio/tokio-1.0.0");
    assert_eq!(k.get_cargo_toml_path(), "w/tokio-1.0.0/Cargo.toml");
    assert_eq!(k.get_target_dir(), "w/tokio-1.0.0/target");
    assert_eq!(k.get_src_dir(), "w/tokio-1.0.0/src");
    assert_eq!(k.get_working_dir(), "w/tokio-1.0.0");
}

#[test]
fn workspace_allocation() {
    let mut m = CrateWorkspaceFileSystemManager::new("./downloads/working", "CVE-1");
    assert_eq!(m.get_krate_working_dir(0), "./downloads/working/CVE-1");
    assert_eq!(m.create_krate_working_dir(0, "tokio", "1.0.0"), Ok((0, 1)));
    assert_eq!(m.get_krate_working_dir(1), "./downloads/working/CVE-1/tokio-workspace/tokio-1.0.0");
    assert_eq!(m.create_krate_working_dir(1, "hyper", "0.14.0"), Ok((1, 2)));
    assert_eq!(m.get_krate_working_dir(2), "./downloads/working/CVE-1/tokio-workspace/tokio-1.0.0/hyper-workspace/hyper-0.14.0");
    assert_eq!(m.create_krate_working_dir(0, "tokio", "1.0.0"), Err(TrackerError::DuplicateWorkspace));
    assert_eq!(m.create_krate_working_dir(7, "x", "1.0.0"), Err(TrackerError::WorkspaceMissing));
    assert_eq!(m.len(), 3);
}

#[test]
fn fetch_and_copy_decisions() {
    assert_eq!(fetch_attempt(0), Some(false));
    assert_eq!(fetch_attempt(2), Some(true));
    assert_eq!(fetch_attempt(3), None);
    assert!(needs_download(false, false));
    assert!(!needs_download(true, false));
    assert!(needs_download(true, true));
    assert!(!download_usable(0));
    assert_eq!(unzip_step(true, false), UnzipStep::Reuse);
    assert_eq!(unzip_step(true, true), UnzipStep::Replace);
    assert_eq!(unzip_step(false, true), UnzipStep::Extract);
    assert_eq!(copy_step(0, true, 0), CopyStep::Done);
    assert_eq!(copy_step(0, false, 0), CopyStep::Retry);
    assert_eq!(copy_step(0, false, 2), CopyStep::Fail);
    assert_eq!(copy_step(24, true, 2), CopyStep::Done);
    assert_eq!(copy_step(24, false, 0), CopyStep::Retry);
    assert_eq!(copy_step(23, false, 1), CopyStep::Retry);
    assert_eq!(copy_step(23, false, 2), CopyStep::Fail);
    assert!(validate_copied_files(&vec![(true, true), (false, false)], 10, 5));
    assert!(!validate_copied_files(&vec![(true, false)], 10, 10));
    assert!(!validate_copied_files(&vec![], 10, 4));
}

#[test]
fn graph_keys_and_names() {
    let id = PackageId { name: "serde".to_string(), version: "1.0.0".to_string() };
    assert_eq!(id.key(), "serde:1.0.0");
    assert_eq!(extract_function_name("callers-digest.json"), Some("digest".to_string()));
    assert_eq!(extract_function_name("digest.json"), None);
    assert_eq!(function_from_file_key("callers-x.json"), "x");
    assert_eq!(function_from_file_key("other"), "other");
    let g = DependencyGraph::new();
    assert!(g.packages.is_empty());
    let cats = vec!["unknown".to_string(), "cryptography".to_string(), "web".to_string()];
    assert_eq!(g.classify_ecosystem_domain(&cats), "crypto");
    assert_eq!(g.classify_ecosystem_domain(&vec![]), "other");
    let p = g.get_package_working_dir("working_dir", &id);
    assert_eq!(p, "working_dir/serde/1.0.0");
}

#[test]
fn builder_keys_packages() {
    let mut b = DependencyGraphBuilder::new();
    let a1 = PackageVersion { name: "a".to_string(), version: "1".to_string() };
    let c1 = PackageVersion { name: "c".to_string(), version: "1".to_string() };
    b.add_package(a1.clone());
    b.add_package(c1.clone());
    b.add_package(a1.clone());
    assert_eq!(b.nodes, vec![a1.clone(), c1.clone()]);
    b.mark_vulnerability_source(&a1);
    b.mark_vulnerability_source(&a1);
    assert_eq!(b.vulnerability_sources, vec!["a:1".to_string()]);
    b.add_dependency(c1.clone(), a1.clone(), "direct");
    assert_eq!(b.edges.len(), 1);
    assert_eq!(b.edges[0].dependency_type, "direct");
}

#[test]
fn risk_levels() {
    assert_eq!(assess_function_risk(0), RiskLevel::Low);
    assert_eq!(assess_function_risk(10), RiskLevel::Low);
    assert_eq!(assess_function_risk(11), RiskLevel::Medium);
    assert_eq!(assess_function_risk(100), RiskLevel::High);
    assert_eq!(assess_function_risk(101), RiskLevel::Critical);
}

#[test]
fn propagation_paths_follow_reverse_edges() {
    let v = |n: &str| PackageVersion { name: n.to_string(), version: "1".to_string() };
    let mut b = DependencyGraphBuilder::new();
    for n in ["a", "b", "c", "d"] {
        b.add_package(v(n));
    }
    b.add_dependency(v("b"), v("a"), "direct");
    b.add_dependency(v("c"), v("b"), "direct");
    b.add_dependency(v("c"), v("a"), "direct");
    b.add_dependency(v("d"), v("c"), "dev");
    b.mark_vulnerability_source(&v("a"));
    let paths = b.compute_propagation_paths();
    let summary: Vec<(String, usize, Vec<String>)> = paths
        .iter()
        .map(|p| (p.id.clone(), p.total_depth, p.path.iter().map(|n| n.package.name.clone()).collect()))
        .collect();
    assert_eq!(summary, vec![
        ("a:1->b:1".to_string(), 1, vec!["a".to_string(), "b".to_string()]),
        ("a:1->c:1".to_string(), 1, vec!["a".to_string(), "c".to_string()]),
        ("a:1->d:1".to_string(), 2, vec!["a".to_string(), "c".to_string(), "d".to_string()]),
    ]);
    assert!(paths[2].path[1].is_direct_dependency && !paths[2].path[2].is_direct_dependency);
    assert_eq!(paths[2].path[2].depth, 2);
    let none = DependencyGraphBuilder::new().compute_propagation_paths();
    assert!(none.is_empty());
}
