use terragrunt_dag::changes::{
    changed_paths, compute_changed_units, diff_args, entry_decides, parse_toplevel, unit_is_changed,
};
use terragrunt_dag::path::join;
use terragrunt_dag::project::Project;

fn project_with(dir: &str, watch_files: Vec<&str>) -> Project {
    Project {
        name: "p".to_string(),
        dir: dir.to_string(),
        project_dependencies: vec![],
        watch_files: watch_files.into_iter().map(String::from).collect(),
        has_terraform_source: true,
    }
}

#[test]
fn test_unit_is_changed_file_inside_dir() {
    let unit = project_with("/repo/live/prod/vpc", vec![]);
    let mut changed: Vec<String> = vec![];
    changed.push("/repo/live/prod/vpc/terragrunt.hcl".to_string());

    assert!(unit_is_changed(&unit, &changed));
}

#[test]
fn test_unit_is_changed_exact_watch_file() {
    let unit = project_with("/repo/live/prod/vpc", vec!["/repo/root.hcl"]);
    let mut changed: Vec<String> = vec![];
    changed.push("/repo/root.hcl".to_string());

    assert!(unit_is_changed(&unit, &changed));
}

#[test]
fn test_unit_is_changed_module_source_dir() {
    // No extension on /repo/modules/vpc → treated as a directory-style
    // watch entry. Any file under it should mark the unit as changed.
    let unit = project_with("/repo/live/prod/vpc", vec!["/repo/modules/vpc"]);
    let mut changed: Vec<String> = vec![];
    changed.push("/repo/modules/vpc/main.tf".to_string());

    assert!(unit_is_changed(&unit, &changed));
}

#[test]
fn test_unit_not_changed_when_no_overlap() {
    let unit = project_with("/repo/live/prod/vpc", vec!["/repo/root.hcl"]);
    let mut changed: Vec<String> = vec![];
    changed.push("/repo/live/dev/app/main.tf".to_string());
    changed.push("/repo/docs/README.md".to_string());

    assert!(!unit_is_changed(&unit, &changed));
}

/// Regression: when the user scans a subdirectory of the git repo (e.g.
/// `tests/fixtures/foo`), `git diff --name-only` returns paths relative
/// to the git toplevel, not to the scan dir. `diff_against` must join
/// against the toplevel so the resulting absolute paths line up with the
/// canonical (absolute) `Project.dir` produced by discovery.
#[test]
fn test_unit_is_changed_when_scan_root_is_subdir_of_repo() {
    // Simulate the post-fix shape: toplevel-relative diff entries joined
    // against the git toplevel, compared with an absolute unit dir that
    // lives several levels below the toplevel.
    let toplevel = "/repo";
    let diff_line =
        "tests/fixtures/mixed_live_and_stack/live/staging/auth/.terragrunt-stack/azure/alpha/terragrunt.hcl";

    let unit = project_with(
        "/repo/tests/fixtures/mixed_live_and_stack/live/staging/auth/.terragrunt-stack/azure/alpha",
        vec![],
    );
    let mut changed: Vec<String> = vec![];
    changed.push(join(toplevel, diff_line));

    assert!(unit_is_changed(&unit, &changed));
}

fn project(dir: &str, watch_files: Vec<&str>, deps: Vec<&str>) -> Project {
    Project {
        name: dir.trim_start_matches('/').replace('/', "_"),
        dir: dir.to_string(),
        project_dependencies: deps.into_iter().map(String::from).collect(),
        watch_files: watch_files.into_iter().map(String::from).collect(),
        has_terraform_source: true,
    }
}

/// Regression for v0.5.0: a shared file (e.g. `live/terragrunt.stack.hcl`)
/// referenced by some units must NOT flag unrelated units as changed via
/// inherited watch_files. Units whose own watch_files do not reference the
/// shared file and whose dep chain does not reach a changed unit stay clean.
#[test]
fn test_compute_changed_units_shared_file_does_not_flag_unrelated() {
    let shared = "/repo/live/terragrunt.stack.hcl";

    // Five units, all in disjoint directories. Only `a` references the
    // shared file in its own watch_files; the others don't.
    let projects = vec![
        project("/repo/live/a", vec![shared], vec![]),
        project("/repo/live/b", vec![], vec![]),
        project("/repo/live/c", vec![], vec![]),
        project("/repo/live/d", vec![], vec![]),
        project("/repo/live/e", vec![], vec![]),
    ];

    let mut changed: Vec<String> = vec![];
    changed.push(shared.to_string());

    let result = compute_changed_units(&projects, &changed, true);

    assert!(result.contains("/repo/live/a"), "a directly watches the shared file");
    for unrelated in ["/repo/live/b", "/repo/live/c", "/repo/live/d", "/repo/live/e"] {
        assert!(!result.contains(unrelated), "{} must not be flagged; got: {:?}", unrelated, result.to_vec());
    }
}

/// Propagation: if A depends on B and B's own files changed, A must also
/// be flagged changed — even though A's own watch_files don't mention the
/// changed path.
#[test]
fn test_compute_changed_units_propagates_via_deps() {
    let projects = vec![
        project("/repo/live/b", vec![], vec![]),
        project("/repo/live/a", vec![], vec!["/repo/live/b"]),
    ];

    let mut changed: Vec<String> = vec![];
    // Change a file inside B's dir.
    changed.push("/repo/live/b/main.tf".to_string());

    let result = compute_changed_units(&projects, &changed, true);

    assert!(result.contains("/repo/live/b"), "B's own file changed");
    assert!(result.contains("/repo/live/a"), "A depends on B and must propagate");
}

/// Propagation fixed-point: A → B → C, change in C must propagate to both
/// B and A regardless of iteration order.
#[test]
fn test_compute_changed_units_propagates_transitively() {
    let projects = vec![
        project("/repo/live/a", vec![], vec!["/repo/live/b"]),
        project("/repo/live/b", vec![], vec!["/repo/live/c"]),
        project("/repo/live/c", vec![], vec![]),
    ];

    let mut changed: Vec<String> = vec![];
    changed.push("/repo/live/c/main.tf".to_string());

    let result = compute_changed_units(&projects, &changed, true);

    assert_eq!(result.len(), 3, "all of A, B, C must be flagged; got: {:?}", result.to_vec());
}

/// `cascade=false` returns only directly-changed units. Chain A → B → C
/// with C seeded: A and B must NOT be flagged.
#[test]
fn test_compute_changed_units_no_cascade_returns_only_seed() {
    let projects = vec![
        project("/repo/live/a", vec![], vec!["/repo/live/b"]),
        project("/repo/live/b", vec![], vec!["/repo/live/c"]),
        project("/repo/live/c", vec![], vec![]),
    ];

    let mut changed: Vec<String> = vec![];
    changed.push("/repo/live/c/main.tf".to_string());

    let result = compute_changed_units(&projects, &changed, false);

    assert_eq!(result.len(), 1, "only C should be flagged when cascade=false; got: {:?}", result.to_vec());
    assert!(result.contains("/repo/live/c"), "C is the seed");
}

/// Cycle regression: A → B → C → A. Fixed-point propagation must terminate
/// (no infinite loop) and flag the entire cycle when one node is seeded.
#[test]
fn test_compute_changed_units_cycle_terminates_and_flags_all() {
    let projects = vec![
        project("/repo/live/a", vec![], vec!["/repo/live/b"]),
        project("/repo/live/b", vec![], vec!["/repo/live/c"]),
        project("/repo/live/c", vec![], vec!["/repo/live/a"]),
    ];

    let mut changed: Vec<String> = vec![];
    changed.push("/repo/live/a/main.tf".to_string());

    let result = compute_changed_units(&projects, &changed, true);

    assert_eq!(result.len(), 3, "every node in the cycle must be flagged; got: {:?}", result.to_vec());
    for node in ["/repo/live/a", "/repo/live/b", "/repo/live/c"] {
        assert!(result.contains(node), "{} missing from cycle propagation; got: {:?}", node, result.to_vec());
    }
}

/// Regression: confirm the pre-fix bug shape (joining diff lines against
/// a scan dir that is a *deeper* directory than the git toplevel)
/// would have failed — guards against accidentally re-introducing that
/// join target.
#[test]
fn test_unit_not_changed_with_doubled_prefix_path() {
    // What the buggy code produced: scan_root.join(repo_relative_line)
    // duplicates the `tests/fixtures/...` segment.
    let scan_root = "/repo/tests/fixtures/mixed_live_and_stack";
    let diff_line =
        "tests/fixtures/mixed_live_and_stack/live/staging/auth/.terragrunt-stack/azure/alpha/terragrunt.hcl";

    let unit = project_with(
        "/repo/tests/fixtures/mixed_live_and_stack/live/staging/auth/.terragrunt-stack/azure/alpha",
        vec![],
    );
    let mut changed: Vec<String> = vec![];
    changed.push(join(scan_root, diff_line));

    assert!(!unit_is_changed(&unit, &changed));
}

#[test]
fn patterns_match_changed_paths() {
    let unit = project_with("/repo/live/vpc", vec!["/repo/modules/vpc/**/*.tf*"]);
    for path in ["/repo/modules/vpc/variables.tf", "/repo/modules/vpc/sub/main.tf"] {
        assert!(unit_is_changed(&unit, &vec![path.to_string()]), "{} should match", path);
    }
    assert!(!unit_is_changed(&unit, &vec!["/repo/modules/vpc/README.md".to_string()]));
    assert!(!unit_is_changed(&unit, &vec!["/repo/modules/other/main.tf".to_string()]));
}

#[test]
fn a_pattern_that_is_rejected_is_a_path() {
    let unit = project_with("/repo/live/vpc", vec!["/repo/a**b.hcl"]);
    assert!(unit_is_changed(&unit, &vec!["/repo/a**b.hcl".to_string()]));
    assert!(!unit_is_changed(&unit, &vec!["/repo/axb.hcl".to_string()]));
}

#[test]
fn a_watch_entry_decides_with_the_verdict() {
    assert!(entry_decides("/a/*.tf", "/a/b.tf", Some(true)));
    assert!(!entry_decides("/a/*.tf", "/a/b.tf", Some(false)));
    assert!(entry_decides("/a/b[.hcl", "/a/b[.hcl", None));
    assert!(entry_decides("/a/modules", "/a/modules/x/main.tf", Some(false)));
    assert!(entry_decides("/a/root.hcl", "/a/./root.hcl", Some(false)));
    assert!(!entry_decides("/a/root.hcl", "/a/root.hcl/x", Some(true)));
}

#[test]
fn the_diff_is_asked_for_and_read() {
    assert_eq!(
        diff_args("origin/main"),
        vec!["diff".to_string(), "--name-only".to_string(), "origin/main...HEAD".to_string(), "--".to_string()]
    );
    assert_eq!(parse_toplevel("/repo\n"), Some("/repo".to_string()));
    assert_eq!(parse_toplevel("\n"), None);
    assert_eq!(
        changed_paths("/repo", "a.tf\nlive/b.tf\n\n"),
        vec!["/repo/a.tf".to_string(), "/repo/live/b.tf".to_string()]
    );
}

#[test]
fn the_order_of_projects_does_not_matter() {
    let forward = vec![
        project("/repo/live/a", vec![], vec!["/repo/live/b"]),
        project("/repo/live/b", vec![], vec!["/repo/live/c"]),
        project("/repo/live/c", vec![], vec![]),
    ];
    let mut backward = forward.clone();
    backward.reverse();
    let changed = vec!["/repo/live/c/main.tf".to_string()];
    let mut one = compute_changed_units(&forward, &changed, true).to_vec();
    let mut two = compute_changed_units(&backward, &changed, true).to_vec();
    one.sort();
    two.sort();
    assert_eq!(one, two);
    assert_eq!(one.len(), 3);
}
