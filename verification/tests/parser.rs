use terragrunt_dag::parser::{
    extract_file_functions_from_expr, extract_path_expr, find_attr, is_remote_path, parse_terragrunt_file, DependencyKind,
    ParseError, PathExpr,
};
use terragrunt_dag::source::parse_hcl;

/// The terragrunt.hcl of each scenario.
fn fixture(name: &str) -> &'static str {
    match name {
        "simple_dependency" => {
            r#"
dependency "vpc" {
  config_path = "../vpc"
}
"#
        }
        "dependencies_single" => {
            r#"
dependencies {
  paths = ["../vpc"]
}
"#
        }
        "dependencies_multiple" => {
            r#"
dependencies {
  paths = ["../vpc", "../sg", "../rds"]
}
"#
        }
        "dependencies_empty" => {
            r#"
dependencies {
  paths = []
}
"#
        }
        "mixed_dependency_types" => {
            r#"
dependency "vpc" {
  config_path = "../vpc"
}

dependency "sg" {
  config_path = "../sg"
  enabled     = false
}

dependencies {
  paths = ["../rds", "../elasticache"]
}
"#
        }
        "include_literal" => {
            r#"
include "root" {
  path = "../root.hcl"
}
"#
        }
        "include_find_in_parent_folders" => {
            r#"
include "root" {
  path = find_in_parent_folders()
}
"#
        }
        "include_find_in_parent_folders_with_arg" => {
            r#"
include "env" {
  path = find_in_parent_folders("env.hcl")
}
"#
        }
        "include_multiple" => {
            r#"
include "root" {
  path = find_in_parent_folders()
}

include "env" {
  path = "../env.hcl"
}

include "region" {
  path = find_in_parent_folders("region.hcl")
}
"#
        }
        "include_with_dependencies" => {
            r#"
include "root" {
  path = find_in_parent_folders()
}

dependency "vpc" {
  config_path = "../vpc"
}

dependencies {
  paths = ["../rds"]
}
"#
        }
        "terraform_local_source" => {
            r#"
terraform {
  source = "../modules/vpc"
}
"#
        }
        "terraform_local_source_absolute" => {
            r#"
terraform {
  source = "${get_repo_root()}/modules/vpc"
}
"#
        }
        "terraform_git_source" => {
            r#"
terraform {
  source = "git::https://github.com/example/modules.git//vpc?ref=v1.0.0"
}
"#
        }
        "terraform_tfr_source" => {
            r#"
terraform {
  source = "tfr:///terraform-aws-modules/vpc/aws?version=5.0.0"
}
"#
        }
        "terraform_github_source" => {
            r#"
terraform {
  source = "github.com/example/modules//vpc?ref=v1.0.0"
}
"#
        }
        "terraform_with_other_blocks" => {
            r#"
include "root" {
  path = find_in_parent_folders()
}

terraform {
  source = "../modules/app"
}

dependency "vpc" {
  config_path = "../vpc"
}
"#
        }
        "terraform_no_source" => {
            r#"
terraform {
  extra_arguments "common" {
    commands = ["plan"]
  }
}
"#
        }
        "locals_read_terragrunt_config" => {
            r#"
locals {
  common = read_terragrunt_config("../common.hcl")
}
"#
        }
        "locals_file" => {
            r#"
locals {
  config = file("../config.yaml")
}
"#
        }
        "locals_sops_decrypt_file" => {
            r#"
locals {
  secrets = sops_decrypt_file("../secrets.yaml")
}
"#
        }
        "locals_read_tfvars_file" => {
            r#"
locals {
  vars = read_tfvars_file("../terraform.tfvars")
}
"#
        }
        "locals_multiple_functions" => {
            r#"
locals {
  common  = read_terragrunt_config("../common.hcl")
  env     = read_terragrunt_config("../env.hcl")
  config  = yamldecode(file("../config.yaml"))
  secrets = yamldecode(sops_decrypt_file("../secrets.yaml"))
  vars    = jsondecode(read_tfvars_file("../terraform.tfvars"))
}
"#
        }
        "locals_nested_function_calls" => {
            r#"
locals {
  root = read_terragrunt_config(find_in_parent_folders("root.hcl"))
}
"#
        }
        "locals_with_other_blocks" => {
            r#"
include "root" {
  path = find_in_parent_folders()
}

locals {
  common = read_terragrunt_config("../common.hcl")
  config = file("../config.yaml")
}

dependency "vpc" {
  config_path = "../vpc"
}

terraform {
  source = "../modules/app"
}
"#
        }
        "locals_no_file_functions" => {
            r#"
locals {
  region = "us-east-1"
  name   = format("%s-app", "prod")
  tags   = { team = "platform" }
}
"#
        }
        "locals_deeply_nested" => {
            r#"
locals {
  config = merge(
    yamldecode(file("../base.yaml")),
    { override = yamldecode(file("../override.yaml")) },
  )
}
"#
        }
        "include_template_expr" => {
            r#"
include "envcommon" {
  path = "${dirname(find_in_parent_folders("root.hcl"))}/_envcommon/service.hcl"
}
"#
        }
        other => panic!("no scenario {}", other),
    }
}

#[test]
fn test_parse_simple_dependency() {
    let text = fixture("simple_dependency");
    let config = parse_terragrunt_file(text).expect("should parse successfully");

    assert_eq!(config.deps.len(), 1);

    let dep = &config.deps[0];
    assert_eq!(dep.kind, DependencyKind::Project);
    assert_eq!(dep.path, PathExpr::Literal("../vpc".to_string()));
    assert_eq!(dep.name, Some("vpc".to_string()));
    assert_eq!(dep.enabled, None);
}

#[test]
fn test_parse_dependencies_single_path() {
    let text = fixture("dependencies_single");
    let config = parse_terragrunt_file(text).expect("should parse successfully");

    assert_eq!(config.deps.len(), 1);

    let dep = &config.deps[0];
    assert_eq!(dep.kind, DependencyKind::Project);
    assert_eq!(dep.path, PathExpr::Literal("../vpc".to_string()));
    assert_eq!(dep.name, None); // dependencies block has no label
    assert_eq!(dep.enabled, None);
}

#[test]
fn test_parse_dependencies_multiple_paths() {
    let text = fixture("dependencies_multiple");
    let config = parse_terragrunt_file(text).expect("should parse successfully");

    assert_eq!(config.deps.len(), 3);

    // Verify all paths are extracted
    let paths: Vec<&PathExpr> = config.deps.iter().map(|d| &d.path).collect();
    assert!(paths.contains(&&PathExpr::Literal("../vpc".to_string())));
    assert!(paths.contains(&&PathExpr::Literal("../sg".to_string())));
    assert!(paths.contains(&&PathExpr::Literal("../rds".to_string())));

    // All should be Project kind with no name
    for dep in &config.deps {
        assert_eq!(dep.kind, DependencyKind::Project);
        assert_eq!(dep.name, None);
    }
}

#[test]
fn test_parse_dependencies_empty_paths() {
    let text = fixture("dependencies_empty");
    let config = parse_terragrunt_file(text).expect("should parse successfully");

    assert_eq!(config.deps.len(), 0);
}

#[test]
fn test_parse_mixed_dependency_and_dependencies() {
    let text = fixture("mixed_dependency_types");
    let config = parse_terragrunt_file(text).expect("should parse successfully");

    // 2 from dependency blocks + 2 from dependencies block = 4 total
    assert_eq!(config.deps.len(), 4);

    // Check singular dependency blocks (have names)
    let named_deps: Vec<_> = config.deps.iter().filter(|d| d.name.is_some()).collect();
    assert_eq!(named_deps.len(), 2);

    // Find the "vpc" dependency
    let vpc = named_deps
        .iter()
        .find(|d| d.name == Some("vpc".to_string()))
        .unwrap();
    assert_eq!(vpc.path, PathExpr::Literal("../vpc".to_string()));
    assert_eq!(vpc.enabled, None);

    // Find the "sg" dependency (disabled)
    let sg = named_deps
        .iter()
        .find(|d| d.name == Some("sg".to_string()))
        .unwrap();
    assert_eq!(sg.path, PathExpr::Literal("../sg".to_string()));
    assert_eq!(sg.enabled, Some(false));

    // Check plural dependencies block entries (no names)
    let unnamed_deps: Vec<_> = config.deps.iter().filter(|d| d.name.is_none()).collect();
    assert_eq!(unnamed_deps.len(), 2);

    let unnamed_paths: Vec<&PathExpr> = unnamed_deps.iter().map(|d| &d.path).collect();
    assert!(unnamed_paths.contains(&&PathExpr::Literal("../rds".to_string())));
    assert!(unnamed_paths.contains(&&PathExpr::Literal("../elasticache".to_string())));
}

#[test]
fn test_parse_include_literal_path() {
    let text = fixture("include_literal");
    let config = parse_terragrunt_file(text).expect("should parse successfully");

    assert_eq!(config.deps.len(), 1);

    let dep = &config.deps[0];
    assert_eq!(dep.kind, DependencyKind::Include);
    assert_eq!(dep.path, PathExpr::Literal("../root.hcl".to_string()));
    assert_eq!(dep.name, Some("root".to_string()));
    assert_eq!(dep.enabled, None);
}

#[test]
fn test_parse_include_find_in_parent_folders() {
    let text = fixture("include_find_in_parent_folders");
    let config = parse_terragrunt_file(text).expect("should parse successfully");

    assert_eq!(config.deps.len(), 1);

    let dep = &config.deps[0];
    assert_eq!(dep.kind, DependencyKind::Include);
    assert_eq!(dep.path, PathExpr::FindInParentFolders(None));
    assert_eq!(dep.name, Some("root".to_string()));
}

#[test]
fn test_parse_include_find_in_parent_folders_with_filename() {
    let text = fixture("include_find_in_parent_folders_with_arg");
    let config = parse_terragrunt_file(text).expect("should parse successfully");

    assert_eq!(config.deps.len(), 1);

    let dep = &config.deps[0];
    assert_eq!(dep.kind, DependencyKind::Include);
    assert_eq!(
        dep.path,
        PathExpr::FindInParentFolders(Some("env.hcl".to_string()))
    );
    assert_eq!(dep.name, Some("env".to_string()));
}

#[test]
fn test_parse_multiple_includes() {
    let text = fixture("include_multiple");
    let config = parse_terragrunt_file(text).expect("should parse successfully");

    assert_eq!(config.deps.len(), 3);

    // All should be Include kind
    assert!(
        config
            .deps
            .iter()
            .all(|d| d.kind == DependencyKind::Include)
    );

    // Find each by name
    let root = config
        .deps
        .iter()
        .find(|d| d.name == Some("root".to_string()))
        .unwrap();
    assert_eq!(root.path, PathExpr::FindInParentFolders(None));

    let env = config
        .deps
        .iter()
        .find(|d| d.name == Some("env".to_string()))
        .unwrap();
    assert_eq!(env.path, PathExpr::Literal("../env.hcl".to_string()));

    let region = config
        .deps
        .iter()
        .find(|d| d.name == Some("region".to_string()))
        .unwrap();
    assert_eq!(
        region.path,
        PathExpr::FindInParentFolders(Some("region.hcl".to_string()))
    );
}

#[test]
fn test_parse_include_with_other_blocks() {
    let text = fixture("include_with_dependencies");
    let config = parse_terragrunt_file(text).expect("should parse successfully");

    // 1 include + 1 dependency + 1 from dependencies block = 3
    assert_eq!(config.deps.len(), 3);

    // Count by kind
    let includes: Vec<_> = config
        .deps
        .iter()
        .filter(|d| d.kind == DependencyKind::Include)
        .collect();
    let projects: Vec<_> = config
        .deps
        .iter()
        .filter(|d| d.kind == DependencyKind::Project)
        .collect();

    assert_eq!(includes.len(), 1);
    assert_eq!(projects.len(), 2);

    // Verify include
    assert_eq!(includes[0].name, Some("root".to_string()));
    assert_eq!(includes[0].path, PathExpr::FindInParentFolders(None));
}

#[test]
fn test_parse_terraform_local_source() {
    let text = fixture("terraform_local_source");
    let config = parse_terragrunt_file(text).expect("should parse successfully");

    assert_eq!(config.deps.len(), 1);

    let dep = &config.deps[0];
    assert_eq!(dep.kind, DependencyKind::TerraformSource);
    assert_eq!(dep.path, PathExpr::Literal("../modules/vpc".to_string()));
    assert_eq!(dep.name, None); // terraform block has no label
}

#[test]
fn test_parse_terraform_local_source_with_interpolation() {
    let text = fixture("terraform_local_source_absolute");
    let config = parse_terragrunt_file(text).expect("should parse successfully");

    assert_eq!(config.deps.len(), 1);

    let dep = &config.deps[0];
    assert_eq!(dep.kind, DependencyKind::TerraformSource);
    // This should be an interpolation or function call - for now accept either representation
    // The key is that it's NOT ignored
    assert!(matches!(
        dep.path,
        PathExpr::Interpolation(_) | PathExpr::Unresolvable { .. }
    ));
}

#[test]
fn test_parse_terraform_git_source_ignored() {
    let text = fixture("terraform_git_source");
    let config = parse_terragrunt_file(text).expect("should parse successfully");

    // Git sources should be ignored - no deps extracted
    assert_eq!(config.deps.len(), 0);
}

#[test]
fn test_parse_terraform_tfr_source_ignored() {
    let text = fixture("terraform_tfr_source");
    let config = parse_terragrunt_file(text).expect("should parse successfully");

    // Terraform registry sources should be ignored
    assert_eq!(config.deps.len(), 0);
}

#[test]
fn test_parse_terraform_github_source_ignored() {
    let text = fixture("terraform_github_source");
    let config = parse_terragrunt_file(text).expect("should parse successfully");

    // GitHub shorthand sources should be ignored
    assert_eq!(config.deps.len(), 0);
}

#[test]
fn test_parse_terraform_with_other_blocks() {
    let text = fixture("terraform_with_other_blocks");
    let config = parse_terragrunt_file(text).expect("should parse successfully");

    // 1 include + 1 terraform source + 1 dependency = 3
    assert_eq!(config.deps.len(), 3);

    // Count by kind
    let terraform_sources: Vec<_> = config
        .deps
        .iter()
        .filter(|d| d.kind == DependencyKind::TerraformSource)
        .collect();
    assert_eq!(terraform_sources.len(), 1);
    assert_eq!(
        terraform_sources[0].path,
        PathExpr::Literal("../modules/app".to_string())
    );

    let includes: Vec<_> = config
        .deps
        .iter()
        .filter(|d| d.kind == DependencyKind::Include)
        .collect();
    assert_eq!(includes.len(), 1);

    let projects: Vec<_> = config
        .deps
        .iter()
        .filter(|d| d.kind == DependencyKind::Project)
        .collect();
    assert_eq!(projects.len(), 1);
}

#[test]
fn test_parse_terraform_no_source() {
    let text = fixture("terraform_no_source");
    let config = parse_terragrunt_file(text).expect("should parse successfully");

    // terraform block without source should not add any deps
    assert_eq!(config.deps.len(), 0);
}

// ============== locals block tests ==============

#[test]
fn test_parse_locals_read_terragrunt_config() {
    let text = fixture("locals_read_terragrunt_config");
    let config = parse_terragrunt_file(text).expect("should parse successfully");

    assert_eq!(config.deps.len(), 1);

    let dep = &config.deps[0];
    assert_eq!(dep.kind, DependencyKind::ReadConfig);
    assert_eq!(dep.path, PathExpr::Literal("../common.hcl".to_string()));
    assert_eq!(dep.name, None);
}

#[test]
fn test_parse_locals_file() {
    let text = fixture("locals_file");
    let config = parse_terragrunt_file(text).expect("should parse successfully");

    assert_eq!(config.deps.len(), 1);

    let dep = &config.deps[0];
    assert_eq!(dep.kind, DependencyKind::FileRead);
    assert_eq!(dep.path, PathExpr::Literal("../config.yaml".to_string()));
}

#[test]
fn test_parse_locals_sops_decrypt_file() {
    let text = fixture("locals_sops_decrypt_file");
    let config = parse_terragrunt_file(text).expect("should parse successfully");

    assert_eq!(config.deps.len(), 1);

    let dep = &config.deps[0];
    assert_eq!(dep.kind, DependencyKind::FileRead);
    assert_eq!(dep.path, PathExpr::Literal("../secrets.yaml".to_string()));
}

#[test]
fn test_parse_locals_read_tfvars_file() {
    let text = fixture("locals_read_tfvars_file");
    let config = parse_terragrunt_file(text).expect("should parse successfully");

    assert_eq!(config.deps.len(), 1);

    let dep = &config.deps[0];
    assert_eq!(dep.kind, DependencyKind::FileRead);
    assert_eq!(
        dep.path,
        PathExpr::Literal("../terraform.tfvars".to_string())
    );
}

#[test]
fn test_parse_locals_multiple_functions() {
    let text = fixture("locals_multiple_functions");
    let config = parse_terragrunt_file(text).expect("should parse successfully");

    // 2 read_terragrunt_config + 1 file + 1 sops_decrypt_file + 1 read_tfvars_file = 5
    assert_eq!(config.deps.len(), 5);

    // Count by kind
    let read_configs: Vec<_> = config
        .deps
        .iter()
        .filter(|d| d.kind == DependencyKind::ReadConfig)
        .collect();
    assert_eq!(read_configs.len(), 2);

    let file_reads: Vec<_> = config
        .deps
        .iter()
        .filter(|d| d.kind == DependencyKind::FileRead)
        .collect();
    assert_eq!(file_reads.len(), 3);

    // Verify specific paths
    let paths: Vec<&PathExpr> = config.deps.iter().map(|d| &d.path).collect();
    assert!(paths.contains(&&PathExpr::Literal("../common.hcl".to_string())));
    assert!(paths.contains(&&PathExpr::Literal("../env.hcl".to_string())));
    assert!(paths.contains(&&PathExpr::Literal("../config.yaml".to_string())));
    assert!(paths.contains(&&PathExpr::Literal("../secrets.yaml".to_string())));
    assert!(paths.contains(&&PathExpr::Literal("../terraform.tfvars".to_string())));
}

#[test]
fn test_parse_locals_nested_function_calls() {
    let text = fixture("locals_nested_function_calls");
    let config = parse_terragrunt_file(text).expect("should parse successfully");

    assert_eq!(config.deps.len(), 1);

    let dep = &config.deps[0];
    assert_eq!(dep.kind, DependencyKind::ReadConfig);
    // The path argument is find_in_parent_folders("root.hcl")
    assert_eq!(
        dep.path,
        PathExpr::FindInParentFolders(Some("root.hcl".to_string()))
    );
}

#[test]
fn test_parse_locals_with_other_blocks() {
    let text = fixture("locals_with_other_blocks");
    let config = parse_terragrunt_file(text).expect("should parse successfully");

    // 1 include + 2 from locals + 1 dependency + 1 terraform = 5
    assert_eq!(config.deps.len(), 5);

    // Verify we have all kinds
    assert!(
        config
            .deps
            .iter()
            .any(|d| d.kind == DependencyKind::Include)
    );
    assert!(
        config
            .deps
            .iter()
            .any(|d| d.kind == DependencyKind::ReadConfig)
    );
    assert!(
        config
            .deps
            .iter()
            .any(|d| d.kind == DependencyKind::FileRead)
    );
    assert!(
        config
            .deps
            .iter()
            .any(|d| d.kind == DependencyKind::Project)
    );
    assert!(
        config
            .deps
            .iter()
            .any(|d| d.kind == DependencyKind::TerraformSource)
    );
}

#[test]
fn test_parse_locals_no_file_functions() {
    let text = fixture("locals_no_file_functions");
    let config = parse_terragrunt_file(text).expect("should parse successfully");

    // No file-related functions, should be empty
    assert_eq!(config.deps.len(), 0);
}

#[test]
fn test_parse_locals_deeply_nested() {
    let text = fixture("locals_deeply_nested");
    let config = parse_terragrunt_file(text).expect("should parse successfully");

    // Should find both file() calls even though deeply nested
    assert_eq!(config.deps.len(), 2);

    assert!(
        config
            .deps
            .iter()
            .all(|d| d.kind == DependencyKind::FileRead)
    );

    let paths: Vec<&PathExpr> = config.deps.iter().map(|d| &d.path).collect();
    assert!(paths.contains(&&PathExpr::Literal("../base.yaml".to_string())));
    assert!(paths.contains(&&PathExpr::Literal("../override.yaml".to_string())));
}

// ============== Template expression tests ==============

#[test]
fn test_parse_include_template_expr_with_dirname() {
    let text = fixture("include_template_expr");
    let config = parse_terragrunt_file(text).expect("should parse successfully");

    assert_eq!(config.deps.len(), 1);

    let dep = &config.deps[0];
    assert_eq!(dep.kind, DependencyKind::Include);
    assert_eq!(dep.name, Some("envcommon".to_string()));

    // The path should be an Interpolation with two parts:
    // 1. Dirname(FindInParentFolders("root.hcl"))
    // 2. Literal("/_envcommon/service.hcl")
    match &dep.path {
        PathExpr::Interpolation(parts) => {
            assert_eq!(parts.len(), 2);

            // First part: dirname(find_in_parent_folders("root.hcl"))
            match &parts[0] {
                PathExpr::Dirname(inner) => match &**inner {
                    PathExpr::FindInParentFolders(Some(filename)) => {
                        assert_eq!(filename, "root.hcl");
                    }
                    _ => panic!("Expected FindInParentFolders inside Dirname"),
                },
                _ => panic!("Expected Dirname as first part"),
            }

            // Second part: literal "/_envcommon/service.hcl"
            assert_eq!(
                parts[1],
                PathExpr::Literal("/_envcommon/service.hcl".to_string())
            );
        }
        _ => panic!("Expected Interpolation, got {:?}", dep.path),
    }
}

#[test]
fn test_extract_path_expr_template_simple() {
    // Test direct extraction of a simple template expression
    let hcl_str = r#"test = "${get_repo_root()}/modules/vpc""#;
    let body = parse_hcl(hcl_str).unwrap();
    let attr = find_attr(&body, "test").unwrap();

    let path_expr = extract_path_expr(attr);

    match path_expr {
        PathExpr::Interpolation(parts) => {
            assert_eq!(parts.len(), 2);
            assert_eq!(parts[0], PathExpr::GetRepoRoot);
            assert_eq!(parts[1], PathExpr::Literal("/modules/vpc".to_string()));
        }
        _ => panic!("Expected Interpolation, got {:?}", path_expr),
    }
}

#[test]
fn test_extract_path_expr_template_complex() {
    // Test a more complex template with nested functions
    let hcl_str = r#"test = "${dirname(find_in_parent_folders("root.hcl"))}/_envcommon/${get_terragrunt_dir()}.hcl""#;
    let body = parse_hcl(hcl_str).unwrap();
    let attr = find_attr(&body, "test").unwrap();

    let path_expr = extract_path_expr(attr);

    match path_expr {
        PathExpr::Interpolation(parts) => {
            assert_eq!(parts.len(), 4);

            // First: dirname(find_in_parent_folders("root.hcl"))
            match &parts[0] {
                PathExpr::Dirname(inner) => match &**inner {
                    PathExpr::FindInParentFolders(Some(f)) => assert_eq!(f, "root.hcl"),
                    _ => panic!("Expected FindInParentFolders in Dirname"),
                },
                _ => panic!("Expected Dirname"),
            }

            // Second: literal "/_envcommon/"
            assert_eq!(parts[1], PathExpr::Literal("/_envcommon/".to_string()));

            // Third: get_terragrunt_dir()
            assert_eq!(parts[2], PathExpr::GetTerragruntDir);

            // Fourth: literal ".hcl"
            assert_eq!(parts[3], PathExpr::Literal(".hcl".to_string()));
        }
        _ => panic!("Expected Interpolation, got {:?}", path_expr),
    }
}

#[test]
fn test_extract_path_expr_dirname_standalone() {
    // Test extraction of dirname as a standalone function call
    let hcl_str = r#"test = dirname("/path/to/file.hcl")"#;
    let body = parse_hcl(hcl_str).unwrap();
    let attr = find_attr(&body, "test").unwrap();

    let path_expr = extract_path_expr(attr);

    match path_expr {
        PathExpr::Dirname(inner) => {
            assert_eq!(*inner, PathExpr::Literal("/path/to/file.hcl".to_string()));
        }
        _ => panic!("Expected Dirname, got {:?}", path_expr),
    }
}

// ============== format() function tests ==============

#[test]
fn test_extract_path_expr_format_simple() {
    // format("%s/alarm_topic", dirname(find_in_parent_folders("env.hcl")))
    let hcl_str =
        r#"test = format("%s/alarm_topic", dirname(find_in_parent_folders("env.hcl")))"#;
    let body = parse_hcl(hcl_str).unwrap();
    let attr = find_attr(&body, "test").unwrap();

    let path_expr = extract_path_expr(attr);

    match path_expr {
        PathExpr::Format { fmt, args } => {
            assert_eq!(fmt, "%s/alarm_topic");
            assert_eq!(args.len(), 1);

            // First arg should be dirname(find_in_parent_folders("env.hcl"))
            match &args[0] {
                PathExpr::Dirname(inner) => match &**inner {
                    PathExpr::FindInParentFolders(Some(filename)) => {
                        assert_eq!(filename, "env.hcl");
                    }
                    _ => panic!("Expected FindInParentFolders inside Dirname"),
                },
                _ => panic!("Expected Dirname as first arg"),
            }
        }
        _ => panic!("Expected Format, got {:?}", path_expr),
    }
}

#[test]
fn test_extract_path_expr_format_with_get_repo_root() {
    // format("%s/aws/_modules/cloudtrail", get_repo_root())
    let hcl_str = r#"test = format("%s/aws/_modules/cloudtrail", get_repo_root())"#;
    let body = parse_hcl(hcl_str).unwrap();
    let attr = find_attr(&body, "test").unwrap();

    let path_expr = extract_path_expr(attr);

    match path_expr {
        PathExpr::Format { fmt, args } => {
            assert_eq!(fmt, "%s/aws/_modules/cloudtrail");
            assert_eq!(args.len(), 1);
            assert_eq!(args[0], PathExpr::GetRepoRoot);
        }
        _ => panic!("Expected Format, got {:?}", path_expr),
    }
}

#[test]
fn test_extract_path_expr_format_multiple_args() {
    // format("%s/%s/config.hcl", get_repo_root(), get_terragrunt_dir())
    let hcl_str = r#"test = format("%s/%s/config.hcl", get_repo_root(), get_terragrunt_dir())"#;
    let body = parse_hcl(hcl_str).unwrap();
    let attr = find_attr(&body, "test").unwrap();

    let path_expr = extract_path_expr(attr);

    match path_expr {
        PathExpr::Format { fmt, args } => {
            assert_eq!(fmt, "%s/%s/config.hcl");
            assert_eq!(args.len(), 2);
            assert_eq!(args[0], PathExpr::GetRepoRoot);
            assert_eq!(args[1], PathExpr::GetTerragruntDir);
        }
        _ => panic!("Expected Format, got {:?}", path_expr),
    }
}

// ============== Edge cases ==============

#[test]
fn broken_text_is_an_hcl_error() {
    match parse_terragrunt_file("dependency \"vpc\" {") {
        Err(ParseError::HclError(message)) => assert!(!message.is_empty()),
        other => panic!("Expected an HCL error, got {:?}", other),
    }
}

#[test]
fn empty_text_is_an_empty_config() {
    let config = parse_terragrunt_file("").unwrap();
    assert_eq!(config.deps.len(), 0);
}

#[test]
fn dependency_without_config_path_is_left_out() {
    let config = parse_terragrunt_file("dependency \"vpc\" {\n  enabled = true\n}\n").unwrap();
    assert_eq!(config.deps.len(), 0);
}

#[test]
fn repo_root_and_terragrunt_dir_are_told_apart() {
    let body = parse_hcl("a = get_repo_root()\nb = get_terragrunt_dir()\nc = path_relative_to_include()\n").unwrap();
    assert_eq!(extract_path_expr(find_attr(&body, "a").unwrap()), PathExpr::GetRepoRoot);
    assert_eq!(extract_path_expr(find_attr(&body, "b").unwrap()), PathExpr::GetTerragruntDir);
    assert!(find_attr(&body, "d").is_none());
}

#[test]
fn an_unknown_function_cannot_be_resolved() {
    let body = parse_hcl("a = uuid()").unwrap();
    assert_eq!(
        extract_path_expr(find_attr(&body, "a").unwrap()),
        PathExpr::Unresolvable { func: "uuid".to_string() }
    );
}

#[test]
fn remote_sources_by_prefix() {
    assert!(is_remote_path("git::ssh://git@host/repo.git"));
    assert!(is_remote_path("tfr:///a/b/c"));
    assert!(is_remote_path("github.com/a/b"));
    assert!(is_remote_path("https://host/module.zip"));
    assert!(!is_remote_path("../modules/vpc"));
    assert!(!is_remote_path("/repo/modules/vpc"));
}

#[test]
fn a_config_and_its_clone_are_equal() {
    let config = parse_terragrunt_file(fixture("locals_with_other_blocks")).unwrap();
    assert_eq!(config.clone(), config);
}

#[test]
fn file_functions_are_found_wherever_they_stand() {
    let found = |src: &str| -> Vec<(DependencyKind, PathExpr)> {
        let body = parse_hcl(&format!("x = {}\n", src)).unwrap();
        let mut deps = vec![];
        extract_file_functions_from_expr(find_attr(&body, "x").unwrap(), &mut deps);
        deps.into_iter().map(|d| (d.kind, d.path)).collect()
    };
    let read = |path: &str| (DependencyKind::ReadConfig, PathExpr::Literal(path.to_string()));
    let file = |path: &str| (DependencyKind::FileRead, PathExpr::Literal(path.to_string()));

    assert_eq!(found(r#"read_terragrunt_config("../env.hcl").locals"#), vec![read("../env.hcl")]);
    assert_eq!(found(r#"local.all[file("a")].b[file("c")]"#), vec![file("a"), file("c")]);
    assert_eq!(found(r#""x-${file("a")}-${read_terragrunt_config("b").locals.c}""#), vec![file("a"), read("b")]);
    assert_eq!(found(r#"{ (file("k")) = file("v"), plain = file("w") }"#), vec![file("k"), file("v"), file("w")]);
    assert_eq!(
        found(r#""%{ if file("c") == "x" }${file("a")}%{ else }b${file("b")}%{ endif }""#),
        vec![file("c"), file("a"), file("b")]
    );
    assert_eq!(found(r#""%{ for x in file("xs") }${file("y")}%{ endfor }""#), vec![file("xs"), file("y")]);
    assert_eq!(found("local.a.b"), vec![]);
}
