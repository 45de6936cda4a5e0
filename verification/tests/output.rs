use terragrunt_dag::layers::compute_layers;
use terragrunt_dag::output::{
    compute_relative_path, derive_name_from_dir, generate_output, looks_like_directory, to_watch_pattern,
    AtlantisOutput, DiggerOutput, Document, GenericOutput, OutputConfig, OutputFormat,
};
use terragrunt_dag::path::join;
use terragrunt_dag::project::Project;
use terragrunt_dag::resolver::normalize_path;

fn generic(document: Document) -> GenericOutput {
    match document {
        Document::Json(output) => output,
        Document::Yaml(output) => output,
        other => panic!("Expected a generic document, got {:?}", other),
    }
}

fn atlantis(document: Document) -> AtlantisOutput {
    match document {
        Document::Atlantis(output) => output,
        other => panic!("Expected an Atlantis document, got {:?}", other),
    }
}

fn digger(document: Document) -> DiggerOutput {
    match document {
        Document::Digger(output) => output,
        other => panic!("Expected a Digger document, got {:?}", other),
    }
}

fn sample_projects() -> Vec<Project> {
    vec![
        Project {
            name: "prod_vpc".to_string(),
            dir: "/repo/live/prod/vpc".to_string(),
            // Dependencies are now absolute paths
            project_dependencies: vec!["/repo/live/prod/network".to_string()],
            watch_files: vec![
                "/repo/live/common/root.hcl".to_string(),
                "/repo/modules/vpc/main.tf".to_string(),
            ],
            has_terraform_source: true,
        },
        Project {
            name: "prod_app".to_string(),
            dir: "/repo/live/prod/app".to_string(),
            // Dependencies are now absolute paths
            project_dependencies: vec!["/repo/live/prod/vpc".to_string(), "/repo/live/prod/rds".to_string()],
            watch_files: vec!["/repo/live/common/root.hcl".to_string()],
            has_terraform_source: true,
        },
    ]
}

// ============== JSON Output Tests ==============

#[test]
fn test_output_json_basic() {
    let projects = sample_projects();
    let config = OutputConfig::default();

    let parsed = generic(generate_output(&projects, OutputFormat::Json, &config));

    assert_eq!(parsed.projects.len(), 2);
    // Without base_dir, name is derived from absolute path
    assert_eq!(parsed.projects[0].name, "_repo_live_prod_vpc");
    assert_eq!(parsed.projects[0].dir, "/repo/live/prod/vpc");
}

#[test]
fn test_output_json_with_relative_paths() {
    let projects = sample_projects();
    let config = OutputConfig {
        base_dir: Some("/repo".to_string()),
        ..Default::default()
    };

    let parsed = generic(generate_output(&projects, OutputFormat::Json, &config));

    assert_eq!(parsed.projects[0].dir, "live/prod/vpc");
    assert!(parsed.projects[0].watch_files[0].starts_with("live/"));
}

// ============== YAML Output Tests ==============

#[test]
fn test_output_yaml_basic() {
    let projects = sample_projects();
    let config = OutputConfig::default();

    let parsed = generic(generate_output(&projects, OutputFormat::Yaml, &config));

    // Without base_dir, name is derived from absolute path
    assert_eq!(parsed.projects[0].name, "_repo_live_prod_vpc");
}

// ============== Atlantis Output Tests ==============

#[test]
fn test_output_atlantis_structure() {
    let projects = sample_projects();
    let config = OutputConfig {
        terraform_version: Some("v1.5.0".to_string()),
        workflow: Some("terragrunt".to_string()),
        ..Default::default()
    };

    let parsed = atlantis(generate_output(&projects, OutputFormat::Atlantis, &config));

    assert_eq!(parsed.version, 3);
    assert_eq!(parsed.parallel_plan, true);

    let project = &parsed.projects[0];
    // Without base_dir, name is derived from absolute path
    assert_eq!(project.name, "_repo_live_prod_vpc");
    assert_eq!(project.workspace, "default");
    assert_eq!(project.workflow, "terragrunt");

    assert_eq!(project.autoplan.enabled, true);
}

#[test]
fn test_output_atlantis_autoplan_includes_watch_files() {
    let projects = sample_projects();
    let config = OutputConfig {
        base_dir: Some("/repo".to_string()),
        ..Default::default()
    };

    let parsed = atlantis(generate_output(&projects, OutputFormat::Atlantis, &config));

    let when_modified = &parsed.projects[0].autoplan.when_modified;

    let patterns: Vec<&str> = when_modified.iter().map(|v| v.as_str()).collect();

    assert!(patterns.iter().any(|p| p.contains("root.hcl")));
}

// ============== Digger Output Tests ==============

#[test]
fn test_output_digger_structure() {
    let projects = sample_projects();
    let config = OutputConfig {
        base_dir: Some("/repo".to_string()),
        workflow: Some("default".to_string()),
        ..Default::default()
    };

    let parsed = digger(generate_output(&projects, OutputFormat::Digger, &config));

    let project = &parsed.projects[0];
    // With base_dir, name is derived from relative path
    assert_eq!(project.name, "live_prod_vpc");
    assert_eq!(project.dir, "live/prod/vpc");
    assert_eq!(project.terragrunt, true);
    assert_eq!(project.workflow, "default");
}

#[test]
fn test_output_digger_depends_on() {
    let projects = sample_projects();
    let config = OutputConfig::default();

    let parsed = digger(generate_output(&projects, OutputFormat::Digger, &config));

    let depends_on = &parsed.projects[0].depends_on;
    assert_eq!(depends_on.len(), 1);

    let depends_on_2 = &parsed.projects[1].depends_on;
    assert_eq!(depends_on_2.len(), 2);
}

#[test]
fn test_output_digger_include_patterns() {
    let projects = sample_projects();
    let config = OutputConfig {
        base_dir: Some("/repo".to_string()),
        include_self_in_watch: true,
        ..Default::default()
    };

    let parsed = digger(generate_output(&projects, OutputFormat::Digger, &config));

    let include_patterns = &parsed.projects[0].include_patterns;

    let patterns: Vec<&str> = include_patterns.iter().map(|v| v.as_str()).collect();

    // Self-reference should be ./**
    assert!(patterns.contains(&"./**"), "Expected ./** for self-reference, got {:?}", patterns);
    // Watch files should be relative to project dir with ../ prefix
    assert!(patterns.iter().any(|p| p.contains("root.hcl")), "Expected path to root.hcl, got {:?}", patterns);
}

#[test]
fn test_output_digger_include_patterns_relative_to_project() {
    let projects = vec![Project {
        name: "prod_app".to_string(),
        dir: "/repo/live/prod/app".to_string(),
        project_dependencies: vec![],
        watch_files: vec!["/repo/root.hcl".to_string(), "/repo/live/common.hcl".to_string()],
        has_terraform_source: true,
    }];
    let config = OutputConfig {
        base_dir: Some("/repo".to_string()),
        include_self_in_watch: true,
        ..Default::default()
    };

    let parsed = digger(generate_output(&projects, OutputFormat::Digger, &config));

    let include_patterns = &parsed.projects[0].include_patterns;

    let patterns: Vec<&str> = include_patterns.iter().map(|v| v.as_str()).collect();

    // Paths should be relative to project dir with ../ prefix for Digger
    assert!(patterns.contains(&"../../../root.hcl"), "Expected ../../../root.hcl, got {:?}", patterns);
    assert!(patterns.contains(&"../../common.hcl"), "Expected ../../common.hcl, got {:?}", patterns);
}

// ============== Edge Cases ==============

#[test]
fn test_output_empty_projects() {
    let projects: Vec<Project> = vec![];
    let config = OutputConfig::default();

    for format in [OutputFormat::Json, OutputFormat::Yaml, OutputFormat::Atlantis, OutputFormat::Digger] {
        let count = match generate_output(&projects, format, &config) {
            Document::Json(output) => output.projects.len(),
            Document::Yaml(output) => output.projects.len(),
            Document::Atlantis(output) => output.projects.len(),
            Document::Digger(output) => output.projects.len(),
        };
        assert_eq!(count, 0, "Format {:?} should handle empty projects", format);
    }
}

#[test]
fn test_output_project_no_dependencies() {
    let projects = vec![Project {
        name: "standalone".to_string(),
        dir: "/repo/standalone".to_string(),
        project_dependencies: vec![],
        watch_files: vec![],
        has_terraform_source: true,
    }];
    let config = OutputConfig::default();

    let parsed = digger(generate_output(&projects, OutputFormat::Digger, &config));

    let depends_on = &parsed.projects[0].depends_on;
    assert!(depends_on.is_empty());
}

// ============== Layer Computation Tests ==============

#[test]
fn test_compute_layers_no_deps() {
    let projects = vec![
        Project {
            name: "a".to_string(),
            dir: "/a".to_string(),
            project_dependencies: vec![],
            watch_files: vec![],
            has_terraform_source: true,
        },
        Project {
            name: "b".to_string(),
            dir: "/b".to_string(),
            project_dependencies: vec![],
            watch_files: vec![],
            has_terraform_source: true,
        },
    ];

    let layers = compute_layers(&projects);

    assert_eq!(layers.get("a"), Some(&0));
    assert_eq!(layers.get("b"), Some(&0));
}

#[test]
fn test_compute_layers_chain() {
    // a -> b -> c (chain dependency)
    // Dependencies are now absolute paths
    let projects = vec![
        Project {
            name: "a".to_string(),
            dir: "/a".to_string(),
            project_dependencies: vec![],
            watch_files: vec![],
            has_terraform_source: true,
        },
        Project {
            name: "b".to_string(),
            dir: "/b".to_string(),
            project_dependencies: vec!["/a".to_string()], // Absolute path
            watch_files: vec![],
            has_terraform_source: true,
        },
        Project {
            name: "c".to_string(),
            dir: "/c".to_string(),
            project_dependencies: vec!["/b".to_string()], // Absolute path
            watch_files: vec![],
            has_terraform_source: true,
        },
    ];

    let layers = compute_layers(&projects);

    assert_eq!(layers.get("a"), Some(&0));
    assert_eq!(layers.get("b"), Some(&1));
    assert_eq!(layers.get("c"), Some(&2));
}

#[test]
fn test_compute_layers_diamond() {
    //     a
    //    / \
    //   b   c
    //    \ /
    //     d
    // Dependencies are now absolute paths
    let projects = vec![
        Project {
            name: "a".to_string(),
            dir: "/a".to_string(),
            project_dependencies: vec![],
            watch_files: vec![],
            has_terraform_source: true,
        },
        Project {
            name: "b".to_string(),
            dir: "/b".to_string(),
            project_dependencies: vec!["/a".to_string()],
            watch_files: vec![],
            has_terraform_source: true,
        },
        Project {
            name: "c".to_string(),
            dir: "/c".to_string(),
            project_dependencies: vec!["/a".to_string()],
            watch_files: vec![],
            has_terraform_source: true,
        },
        Project {
            name: "d".to_string(),
            dir: "/d".to_string(),
            project_dependencies: vec!["/b".to_string(), "/c".to_string()],
            watch_files: vec![],
            has_terraform_source: true,
        },
    ];

    let layers = compute_layers(&projects);

    assert_eq!(layers.get("a"), Some(&0));
    assert_eq!(layers.get("b"), Some(&1));
    assert_eq!(layers.get("c"), Some(&1)); // Same layer as b (parallel)
    assert_eq!(layers.get("d"), Some(&2));
}

#[test]
fn test_compute_layers_unknown_dependencies() {
    // Project with dependency on non-existent project
    // Dependencies are now absolute paths
    let projects = vec![
        Project {
            name: "a".to_string(),
            dir: "/a".to_string(),
            project_dependencies: vec![],
            watch_files: vec![],
            has_terraform_source: true,
        },
        Project {
            name: "b".to_string(),
            dir: "/b".to_string(),
            project_dependencies: vec!["/a".to_string(), "/nonexistent".to_string()],
            watch_files: vec![],
            has_terraform_source: true,
        },
    ];

    let layers = compute_layers(&projects);

    // Unknown dependencies should be ignored
    assert_eq!(layers.get("a"), Some(&0));
    assert_eq!(layers.get("b"), Some(&1));
}

#[test]
fn test_output_atlantis_execution_order_group() {
    let projects = vec![
        Project {
            name: "vpc".to_string(),
            dir: "/repo/vpc".to_string(),
            project_dependencies: vec![],
            watch_files: vec![],
            has_terraform_source: true,
        },
        Project {
            name: "app".to_string(),
            dir: "/repo/app".to_string(),
            project_dependencies: vec!["/repo/vpc".to_string()], // Absolute path
            watch_files: vec![],
            has_terraform_source: true,
        },
    ];
    let config = OutputConfig::default();

    let parsed = atlantis(generate_output(&projects, OutputFormat::Atlantis, &config));

    // vpc should be group 0, app should be group 1
    // Without base_dir, names are derived from absolute paths
    let vpc = parsed.projects.iter().find(|p| p.name == "_repo_vpc").unwrap();
    let app = parsed.projects.iter().find(|p| p.name == "_repo_app").unwrap();

    assert_eq!(vpc.execution_order_group, 0);
    assert_eq!(app.execution_order_group, 1);
}

#[test]
fn test_output_digger_layer() {
    let projects = vec![
        Project {
            name: "vpc".to_string(),
            dir: "/repo/vpc".to_string(),
            project_dependencies: vec![],
            watch_files: vec![],
            has_terraform_source: true,
        },
        Project {
            name: "app".to_string(),
            dir: "/repo/app".to_string(),
            project_dependencies: vec!["/repo/vpc".to_string()], // Absolute path
            watch_files: vec![],
            has_terraform_source: true,
        },
    ];
    let config = OutputConfig::default();

    let parsed = digger(generate_output(&projects, OutputFormat::Digger, &config));

    // Without base_dir, names are derived from absolute paths
    let vpc = parsed.projects.iter().find(|p| p.name == "_repo_vpc").unwrap();
    let app = parsed.projects.iter().find(|p| p.name == "_repo_app").unwrap();

    assert_eq!(vpc.layer, 0);
    assert_eq!(app.layer, 1);
}

// ============== compute_relative_path Tests ==============

#[test]
fn test_compute_relative_path_sibling() {
    // From /repo/live/prod/app to /repo/live/prod/vpc
    let from = "/repo/live/prod/app";
    let to = "/repo/live/prod/vpc";

    assert_eq!(compute_relative_path(from, to), "../vpc");
}

#[test]
fn test_compute_relative_path_up_to_root() {
    // From /repo/live/prod/app to /repo/root.hcl
    let from = "/repo/live/prod/app";
    let to = "/repo/root.hcl";

    assert_eq!(compute_relative_path(from, to), "../../../root.hcl");
}

#[test]
fn test_compute_relative_path_nested_up() {
    // From /repo/prod/us-east-1/prod/webserver-cluster to /repo/_envcommon/webserver-cluster.hcl
    let from = "/repo/prod/us-east-1/prod/webserver-cluster";
    let to = "/repo/_envcommon/webserver-cluster.hcl";

    assert_eq!(compute_relative_path(from, to), "../../../../_envcommon/webserver-cluster.hcl");
}

#[test]
fn test_compute_relative_path_same_dir() {
    // From /repo/live/prod to /repo/live/prod/env.hcl
    let from = "/repo/live/prod";
    let to = "/repo/live/prod/env.hcl";

    assert_eq!(compute_relative_path(from, to), "env.hcl");
}

#[test]
fn test_output_atlantis_when_modified_relative_to_project() {
    let projects = vec![Project {
        name: "prod_app".to_string(),
        dir: "/repo/live/prod/app".to_string(),
        project_dependencies: vec![],
        watch_files: vec!["/repo/root.hcl".to_string(), "/repo/live/common.hcl".to_string()],
        has_terraform_source: true,
    }];
    let config = OutputConfig {
        base_dir: Some("/repo".to_string()),
        ..Default::default()
    };

    let parsed = atlantis(generate_output(&projects, OutputFormat::Atlantis, &config));

    let when_modified = &parsed.projects[0].autoplan.when_modified;

    let patterns: Vec<&str> = when_modified.iter().map(|v| v.as_str()).collect();

    // Paths should be relative to project dir (/repo/live/prod/app)
    assert!(patterns.contains(&"../../../root.hcl"), "Expected ../../../root.hcl, got {:?}", patterns);
    assert!(patterns.contains(&"../../common.hcl"), "Expected ../../common.hcl, got {:?}", patterns);
}

// ============== Project Name Derivation Tests ==============

#[test]
fn test_derive_name_from_relative_dir_simple() {
    // Name should be derived from relative dir path with underscores
    assert_eq!(derive_name_from_dir("alarm_topic"), "alarm_topic");
    assert_eq!(derive_name_from_dir("vpc"), "vpc");
}

#[test]
fn test_derive_name_from_relative_dir_nested() {
    // Nested paths should have slashes replaced with underscores
    assert_eq!(derive_name_from_dir("apps/pass/ecs_service"), "apps_pass_ecs_service");
    assert_eq!(derive_name_from_dir("live/prod/vpc"), "live_prod_vpc");
}

#[test]
fn test_derive_name_from_relative_dir_with_backslash() {
    // Handle Windows-style paths (though we use UTF-8 paths)
    assert_eq!(derive_name_from_dir("apps\\pass\\ecs_service"), "apps_pass_ecs_service");
}

#[test]
fn test_atlantis_output_uses_derived_names() {
    // Test that Atlantis output uses names derived from relative dirs
    let projects = vec![
        Project {
            name: "wrong_name_from_processor".to_string(), // This should be overridden
            dir: "/repo/alarm_topic".to_string(),
            project_dependencies: vec![],
            watch_files: vec![],
            has_terraform_source: true,
        },
        Project {
            name: "also_wrong".to_string(),
            dir: "/repo/apps/pass/ecs_service".to_string(),
            project_dependencies: vec![],
            watch_files: vec![],
            has_terraform_source: true,
        },
    ];
    let config = OutputConfig {
        base_dir: Some("/repo".to_string()),
        ..Default::default()
    };

    let parsed = atlantis(generate_output(&projects, OutputFormat::Atlantis, &config));

    // Check that names are derived from relative dirs, not from processor
    assert_eq!(parsed.projects[0].name, "alarm_topic");
    assert_eq!(parsed.projects[1].name, "apps_pass_ecs_service");
}

// ============== Workspace Generation Tests ==============

#[test]
fn test_atlantis_workspace_defaults_to_name() {
    // Without workspace override, workspace should match the name
    let projects = vec![Project {
        name: "ignored".to_string(),
        dir: "/repo/alarm_topic".to_string(),
        project_dependencies: vec![],
        watch_files: vec![],
        has_terraform_source: true,
    }];
    let config = OutputConfig {
        base_dir: Some("/repo".to_string()),
        workspace: None, // No override
        ..Default::default()
    };

    let parsed = atlantis(generate_output(&projects, OutputFormat::Atlantis, &config));

    // Workspace should match name when no override
    assert_eq!(parsed.projects[0].name, "alarm_topic");
    assert_eq!(parsed.projects[0].workspace, "alarm_topic");
}

#[test]
fn test_atlantis_workspace_can_be_overridden() {
    // With workspace override, all projects should use the override
    let projects = vec![
        Project {
            name: "ignored".to_string(),
            dir: "/repo/alarm_topic".to_string(),
            project_dependencies: vec![],
            watch_files: vec![],
            has_terraform_source: true,
        },
        Project {
            name: "ignored2".to_string(),
            dir: "/repo/apps/pass".to_string(),
            project_dependencies: vec![],
            watch_files: vec![],
            has_terraform_source: true,
        },
    ];
    let config = OutputConfig {
        base_dir: Some("/repo".to_string()),
        workspace: Some("production".to_string()), // Override
        ..Default::default()
    };

    let parsed = atlantis(generate_output(&projects, OutputFormat::Atlantis, &config));

    // Both should use the override workspace
    assert_eq!(parsed.projects[0].workspace, "production");
    assert_eq!(parsed.projects[1].workspace, "production");
}

// ============== Atlantis Config Options Tests ==============

#[test]
fn test_atlantis_autoplan_can_be_disabled() {
    let projects = vec![Project {
        name: "test".to_string(),
        dir: "/repo/test".to_string(),
        project_dependencies: vec![],
        watch_files: vec![],
        has_terraform_source: true,
    }];
    let config = OutputConfig {
        autoplan_enabled: false,
        ..Default::default()
    };

    let parsed = atlantis(generate_output(&projects, OutputFormat::Atlantis, &config));

    assert_eq!(parsed.projects[0].autoplan.enabled, false);
}

#[test]
fn test_atlantis_autoplan_enabled_by_default() {
    let projects = vec![Project {
        name: "test".to_string(),
        dir: "/repo/test".to_string(),
        project_dependencies: vec![],
        watch_files: vec![],
        has_terraform_source: true,
    }];
    let config = OutputConfig::default();

    let parsed = atlantis(generate_output(&projects, OutputFormat::Atlantis, &config));

    assert_eq!(parsed.projects[0].autoplan.enabled, true);
}

#[test]
fn test_atlantis_automerge_disabled_by_default() {
    let projects = vec![Project {
        name: "test".to_string(),
        dir: "/repo/test".to_string(),
        project_dependencies: vec![],
        watch_files: vec![],
        has_terraform_source: true,
    }];
    let config = OutputConfig::default();

    let parsed = atlantis(generate_output(&projects, OutputFormat::Atlantis, &config));

    assert_eq!(parsed.automerge, false);
}

#[test]
fn test_atlantis_automerge_can_be_enabled() {
    let projects = vec![Project {
        name: "test".to_string(),
        dir: "/repo/test".to_string(),
        project_dependencies: vec![],
        watch_files: vec![],
        has_terraform_source: true,
    }];
    let config = OutputConfig {
        automerge: true,
        ..Default::default()
    };

    let parsed = atlantis(generate_output(&projects, OutputFormat::Atlantis, &config));

    assert_eq!(parsed.automerge, true);
}

#[test]
fn test_atlantis_parallel_apply_disabled_by_default() {
    let projects = vec![Project {
        name: "test".to_string(),
        dir: "/repo/test".to_string(),
        project_dependencies: vec![],
        watch_files: vec![],
        has_terraform_source: true,
    }];
    let config = OutputConfig::default();

    let parsed = atlantis(generate_output(&projects, OutputFormat::Atlantis, &config));

    assert_eq!(parsed.parallel_apply, false);
}

#[test]
fn test_atlantis_parallel_apply_can_be_enabled() {
    let projects = vec![Project {
        name: "test".to_string(),
        dir: "/repo/test".to_string(),
        project_dependencies: vec![],
        watch_files: vec![],
        has_terraform_source: true,
    }];
    let config = OutputConfig {
        parallel_apply: true,
        ..Default::default()
    };

    let parsed = atlantis(generate_output(&projects, OutputFormat::Atlantis, &config));

    assert_eq!(parsed.parallel_apply, true);
}

// ============== Exact documents ==============

#[test]
fn generic_projects_hold_names_and_relative_paths() {
    let config = OutputConfig { base_dir: Some("/repo".to_string()), ..Default::default() };
    let output = generic(generate_output(&sample_projects(), OutputFormat::Json, &config));
    assert_eq!(output.projects[0].name, "live_prod_vpc");
    assert_eq!(output.projects[0].dependencies, vec!["live_prod_network".to_string()]);
    assert_eq!(
        output.projects[0].watch_files,
        vec!["live/common/root.hcl".to_string(), "modules/vpc/main.tf".to_string()]
    );
}

#[test]
fn atlantis_projects_watch_themselves_and_modules() {
    let mut project = sample_projects().remove(1);
    project.watch_files.push("/repo/_modules/vpc".to_string());
    let config = OutputConfig {
        base_dir: Some("/repo".to_string()),
        terraform_version: Some("v1.5.0".to_string()),
        workflow: None,
        ..Default::default()
    };
    let output = atlantis(generate_output(&[project], OutputFormat::Atlantis, &config));
    assert_eq!(output.projects[0].terraform_version, Some("v1.5.0".to_string()));
    assert_eq!(output.projects[0].workflow, "terragrunt");
    assert_eq!(
        output.projects[0].autoplan.when_modified,
        vec![
            "**/*.hcl".to_string(),
            "**/*.tf".to_string(),
            "../../common/root.hcl".to_string(),
            "../../../_modules/vpc/**/*.tf".to_string(),
        ]
    );
}

#[test]
fn own_files_can_be_left_out() {
    let config = OutputConfig { include_self_in_watch: false, ..Default::default() };
    let project = sample_projects().remove(1);
    let output = atlantis(generate_output(&[project.clone()], OutputFormat::Atlantis, &config));
    assert_eq!(output.projects[0].autoplan.when_modified, vec!["../../common/root.hcl".to_string()]);
    let output = digger(generate_output(&[project], OutputFormat::Digger, &config));
    assert_eq!(output.projects[0].include_patterns, vec!["../../common/root.hcl".to_string()]);
}

#[test]
fn relative_paths_lead_back() {
    for (from, to) in [("/a/b", "/a/c/d"), ("/a", "/a"), ("/a/b/c", "/"), ("/", "/x/y")] {
        let way = compute_relative_path(from, to);
        assert_eq!(normalize_path(&join(from, &way)), to);
    }
    assert_eq!(compute_relative_path("/a", "/a"), ".");
}

#[test]
fn directories_are_watched_by_pattern() {
    assert!(looks_like_directory("/modules/vpc"));
    assert!(!looks_like_directory("/modules/vpc.hcl"));
    assert_eq!(to_watch_pattern("../modules/vpc".to_string()), "../modules/vpc/**/*.tf");
    assert_eq!(to_watch_pattern("../root.hcl".to_string()), "../root.hcl");
}
