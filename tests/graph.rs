use cvetracker::graph::{dependency_kind, DependencyEdge, DependencyGraph, DependencyType, PackageId, PackageMetadata};

fn id(n: &str) -> PackageId {
    PackageId { name: n.to_string(), version: "1.0.0".to_string() }
}

fn meta(n: &str, functions: &[&str]) -> PackageMetadata {
    PackageMetadata {
        id: id(n),
        categories: vec![],
        downloads: None,
        is_vulnerability_source: !functions.is_empty(),
        vulnerability_functions: functions.iter().map(|s| s.to_string()).collect(),
        ecosystem_domain: "other".to_string(),
    }
}

fn edge(from: &str, to: &str) -> DependencyEdge {
    DependencyEdge { from: id(from), to: id(to), dependency_type: DependencyType::Normal, version_requirement: "^1".to_string() }
}

/// a <- b <- c <- d, a <- c, and e depends on c but is no package of the graph.
fn sample() -> DependencyGraph {
    let mut g = DependencyGraph::new();
    g.packages = vec![meta("a", &["digest"]), meta("b", &[]), meta("c", &[]), meta("d", &[])];
    g.dependencies = vec![edge("b", "a"), edge("c", "b"), edge("c", "a"), edge("d", "c"), edge("e", "c")];
    g.vulnerability_sources = vec!["a:1.0.0".to_string()];
    g
}

#[test]
fn reach_walks_reverse_edges_breadth_first() {
    let g = sample();
    let reach = g.reach_from(&id("a"));
    let names: Vec<&str> = reach.iter().map(|(p, _)| p.name.as_str()).collect();
    assert_eq!(names, vec!["a", "b", "c", "d"]);
    let d_path: Vec<&str> = reach[3].1.iter().map(|p| p.name.as_str()).collect();
    assert_eq!(d_path, vec!["a", "c", "d"]);
}

#[test]
fn propagation_paths_to_a_target() {
    let g = sample();
    let paths = g.find_propagation_paths(&id("d"), 5);
    assert_eq!(paths.len(), 1);
    assert_eq!(paths[0].id, "a:1.0.0->d:1.0.0");
    assert_eq!(paths[0].total_depth, 2);
    assert_eq!(paths[0].vulnerability_functions, vec!["digest".to_string()]);
    assert!(g.find_propagation_paths(&id("d"), 1).is_empty());
    assert!(g.find_propagation_paths(&id("e"), 5).is_empty());
}

#[test]
fn dependency_depths() {
    let g = sample();
    assert_eq!(g.calculate_dependency_depth(&id("a")), 0);
    assert_eq!(g.calculate_dependency_depth(&id("c")), 1);
    assert_eq!(g.calculate_dependency_depth(&id("d")), 2);
    assert_eq!(g.calculate_dependency_depth(&id("e")), usize::MAX);
    assert_eq!(DependencyGraph::new().calculate_dependency_depth(&id("d")), 0);
}

#[test]
fn vulnerability_functions_by_package() {
    let g = sample();
    assert_eq!(g.get_vulnerability_functions(&id("a")), vec!["digest".to_string()]);
    assert!(g.get_vulnerability_functions(&id("zz")).is_empty());
}

#[test]
fn critical_nodes_by_degree_then_key() {
    let g = sample();
    let names: Vec<String> = g.identify_critical_nodes().into_iter().map(|p| p.name).collect();
    assert_eq!(names, vec!["c", "a", "b", "d"]);
    let mut big = DependencyGraph::new();
    big.packages = (0..12).map(|i| meta(&format!("p{:02}", i), &[])).collect();
    big.dependencies = vec![edge("p11", "p05"), edge("p10", "p05"), edge("p03", "p11")];
    let top: Vec<String> = big.identify_critical_nodes().into_iter().map(|p| p.name).collect();
    assert_eq!(top, vec!["p05", "p11", "p03", "p10", "p00", "p01", "p02", "p04", "p06", "p07"]);
}

#[test]
fn dependency_kinds() {
    assert_eq!(dependency_kind(Some("dev")), DependencyType::Dev);
    assert_eq!(dependency_kind(Some("build")), DependencyType::Build);
    assert_eq!(dependency_kind(Some("normal")), DependencyType::Normal);
    assert_eq!(dependency_kind(None), DependencyType::Normal);
}

#[test]
fn infrastructure_and_downloads() {
    let mut g = sample();
    g.packages[0].categories = vec!["parsing".to_string(), "cryptography".to_string()];
    g.packages[1].categories = vec!["web".to_string()];
    g.packages[2].downloads = Some(10);
    g.packages[3].downloads = Some(u64::MAX);
    assert_eq!(g.assess_infrastructure_impact(), 2);
    assert_eq!(g.estimate_potential_users(), u64::MAX);
    g.packages[3].downloads = Some(5);
    assert_eq!(g.estimate_potential_users(), 15);
}
