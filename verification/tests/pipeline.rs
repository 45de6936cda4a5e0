use terragrunt_dag::cycle::detect_cycles;
use terragrunt_dag::pipeline::{
    build_edges_from_projects, describe_failures, examine_evaluation, examine_graph, filter_lets_through,
    filter_projects, graph_is_disconnected, keep_passing, list_projects, output_base, select_projects, unmatched_dependencies,
};
use terragrunt_dag::processor::ProjectResult;
use terragrunt_dag::project::Project;
use terragrunt_dag::stack::EvalReport;

fn project(dir: &str, deps: Vec<&str>, source: bool) -> Project {
    Project {
        name: dir.trim_start_matches('/').replace('/', "_"),
        dir: dir.to_string(),
        project_dependencies: deps.into_iter().map(String::from).collect(),
        watch_files: vec![],
        has_terraform_source: source,
    }
}

fn strings(list: &[&str]) -> Vec<String> {
    list.iter().map(|s| s.to_string()).collect()
}

#[test]
fn a_filter_keeps_what_matches_below_the_base() {
    let paths = strings(&["/repo/live/prod/vpc", "/repo/live/staging/vpc", "/repo/live/prod/app"]);
    let kept = filter_projects(&paths, "prod/*", "/repo/live").unwrap();
    assert_eq!(kept, strings(&["/repo/live/prod/vpc", "/repo/live/prod/app"]));
    assert_eq!(filter_projects(&paths, "**/vpc", "/repo/live").unwrap().len(), 2);
    assert!(filter_projects(&paths, "nothing", "/repo/live").unwrap().is_empty());
}

#[test]
fn a_filter_sees_other_paths_whole() {
    assert!(filter_lets_through("/elsewhere/*", "/repo", "/elsewhere/a"));
    assert!(!filter_lets_through("a", "/repo", "/elsewhere/a"));
    assert!(filter_lets_through("a", "/repo", "/repo/a"));
}

#[test]
fn a_broken_filter_is_an_error() {
    let message = filter_projects(&strings(&["/repo/a"]), "a**b[", "/repo").unwrap_err();
    assert!(!message.is_empty());
    assert!(!filter_lets_through("a**b[", "/repo", "/repo/a"));
}

#[test]
fn results_are_sorted_by_what_is_done_with_them() {
    let selection = select_projects(vec![
        ProjectResult::Processed(project("/a", vec![], true)),
        ProjectResult::Failed { path: "/b".to_string(), error: "broken".to_string() },
        ProjectResult::Processed(project("/c", vec![], false)),
    ]);
    assert_eq!(selection.projects.len(), 1);
    assert_eq!(selection.projects[0].dir, "/a");
    assert_eq!(selection.without_source, strings(&["/c"]));
    assert_eq!(selection.errors, vec![("/b".to_string(), "broken".to_string())]);
}

#[test]
fn failures_are_described() {
    assert_eq!(describe_failures(&vec![]), "");
    let errors = vec![("/a".to_string(), "x".to_string()), ("/b".to_string(), "y".to_string())];
    assert_eq!(describe_failures(&errors), "Warning: 2 projects failed to process:\n  /a: x\n  /b: y\n");
}

#[test]
fn edges_lead_from_projects_to_their_dependencies() {
    let projects = vec![project("/a", vec!["/b"], true), project("/b", vec!["/a", "/x"], true)];
    let edges = build_edges_from_projects(&projects);
    let pairs: Vec<(&str, &str)> = edges.iter().map(|e| (e.from.as_str(), e.to.as_str())).collect();
    assert_eq!(pairs, vec![("/a", "/b"), ("/b", "/a"), ("/b", "/x")]);
    assert_eq!(detect_cycles(&edges).cycles.len(), 1);
}

#[test]
fn dependencies_without_a_project_are_found() {
    let projects = vec![project("/a", vec!["/b"], true), project("/b", vec!["/x"], true)];
    let loose = unmatched_dependencies(&projects);
    assert_eq!(loose.len(), 1);
    assert_eq!(loose[0].from, "/b");
    assert_eq!(loose[0].to, "/x");
    assert!(!graph_is_disconnected(&projects));
}

#[test]
fn a_graph_without_inner_edges_is_disconnected() {
    assert!(graph_is_disconnected(&[project("/a", vec!["/x"], true), project("/b", vec!["/y"], true)]));
    assert!(!graph_is_disconnected(&[project("/a", vec![], true), project("/b", vec![], true)]));
    assert!(!graph_is_disconnected(&[]));
}

#[test]
fn output_is_seen_from_the_root_unless_told_otherwise() {
    assert_eq!(output_base(None, "/root"), Some("/root".to_string()));
    assert_eq!(output_base(Some("/base".to_string()), "/root"), Some("/base".to_string()));
}

#[test]
fn projects_are_filtered_like_paths() {
    let projects = vec![project("/repo/prod/a", vec![], true), project("/repo/staging/a", vec![], true)];
    let kept = keep_passing(&projects, "prod/*", "/repo");
    assert_eq!(kept.len(), 1);
    assert_eq!(kept[0].dir, "/repo/prod/a");
    assert!(keep_passing(&projects, "a**b[", "/repo").is_empty());
}

#[test]
fn a_graph_is_examined() {
    let projects = vec![project("/a", vec!["/x"], true)];
    let found = detect_cycles(&build_edges_from_projects(&projects));
    let report = examine_graph(&projects, &found, false);
    assert_eq!(
        report.text,
        "Warning: dependency of /a matches no emitted unit: /x\nWarning: no dependency links two emitted units\n"
    );
    assert_eq!(report.error, None);
    let report = examine_graph(&projects, &found, true);
    assert_eq!(report.text, "Warning: dependency of /a matches no emitted unit: /x\n");
    assert_eq!(report.error, Some("no dependency links two emitted units".to_string()));
}

#[test]
fn cycles_are_refused_only_strictly() {
    let projects = vec![project("/a", vec!["/b"], true), project("/b", vec!["/a"], true)];
    let found = detect_cycles(&build_edges_from_projects(&projects));
    let report = examine_graph(&projects, &found, false);
    assert!(report.text.contains("WARNING: Dependency cycles detected (1 cycle found)"));
    assert_eq!(report.error, None);
    let report = examine_graph(&projects, &found, true);
    assert_eq!(
        report.error,
        Some("Dependency cycles detected (use without --strict to generate output anyway)".to_string())
    );
}

#[test]
fn projects_are_listed_with_their_layers() {
    let projects = vec![project("/a", vec![], true), project("/b", vec!["/a", "/x"], true)];
    assert_eq!(list_projects(&projects), "a (layer 0): \nb (layer 1): /a, /x\n");
    assert_eq!(list_projects(&[]), "");
}

#[test]
fn failures_of_an_expansion_are_refused_only_strictly() {
    let none = EvalReport::default();
    let some = EvalReport { values_failures: 2, file_io_failures: 1, ..EvalReport::default() };
    assert_eq!(examine_evaluation(&none, true), None);
    assert_eq!(examine_evaluation(&some, false), None);
    assert_eq!(
        examine_evaluation(&some, true),
        Some(
            "Stack files could not be evaluated: 2 values, 0 source paths, 1 file reads, 0 cycles, 0 remote sources, \
             0 missing stack files, 0 stacks too deep"
                .to_string()
        )
    );
}
