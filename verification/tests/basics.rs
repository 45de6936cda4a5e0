use terragrunt_dag::cache::ParseCache;
use terragrunt_dag::layers::compute_layers;
use terragrunt_dag::names::NameSet;
use terragrunt_dag::path::{
    contains_path, file_name, is_absolute, join, path_less, same_path, sorted_paths, starts_with_path,
};
use terragrunt_dag::processor::ProcessError;
use terragrunt_dag::project::Project;
use terragrunt_dag::source::parse_hcl;
use terragrunt_dag::syntax::{Expr, Structure, TemplatePart, TraversalOperator};
use terragrunt_dag::text::{
    decimal_text, find_text, join as join_texts, lines, replace_text, signed_decimal_text, sorted_unique, split_char,
    split_text, trim, trim_end, underscore,
};
use terragrunt_dag::parser::find_attr;

fn strings(list: &[&str]) -> Vec<String> {
    list.iter().map(|s| s.to_string()).collect()
}

// ============== Paths ==============

#[test]
fn paths_are_joined() {
    assert_eq!(join("/a", "b/c"), "/a/b/c");
    assert_eq!(join("/a/", "b"), "/a/b");
    assert_eq!(join("/a", "/b"), "/b");
    assert_eq!(join("", "b"), "b");
}

#[test]
fn paths_are_compared_by_their_parts() {
    assert!(starts_with_path("/a/b/c", "/a/b"));
    assert!(!starts_with_path("/a/bc", "/a/b"));
    assert!(starts_with_path("/a//b/./c", "/a/b/"));
    assert!(same_path("/a/b/", "/a//b"));
    assert!(!same_path("/a/b", "a/b"));
    assert!(is_absolute("/a"));
    assert!(!is_absolute("a/b"));
    assert_eq!(file_name("/a/b.hcl"), Some("b.hcl".to_string()));
    assert_eq!(file_name("/a/.."), None);
    assert_eq!(file_name("/"), None);
}

#[test]
fn paths_are_sorted_by_their_parts() {
    // The part "a" comes before "a-b", though '/' comes behind '-'.
    assert!(path_less("/a/z", "/a-b/a"));
    let sorted = sorted_paths(&strings(&["/b", "/a-b/a", "/a/z", "/b", "/a"]));
    assert_eq!(sorted, strings(&["/a", "/a/z", "/a-b/a", "/b"]));
    assert!(contains_path(&sorted, "/a/z"));
    assert!(!contains_path(&sorted, "/z"));
}

// ============== Texts ==============

#[test]
fn texts_are_split_and_joined() {
    assert_eq!(split_char("a/b//", '/'), strings(&["a", "b", "", ""]));
    assert_eq!(split_text("a, b, c", ", "), strings(&["a", "b", "c"]));
    assert_eq!(join_texts(&strings(&["a", "b"]), "--"), "a--b");
    assert_eq!(lines("a\n\nb\n"), strings(&["a", "b"]));
    assert_eq!(replace_text("aaa", "aa", "b"), "ba");
    assert_eq!(find_text("hello", "l"), Some(2));
    assert_eq!(find_text("hello", "x"), None);
    assert_eq!(trim("\t a \n"), "a");
    assert_eq!(trim_end(" a \r\n"), " a");
    assert_eq!(underscore("a/b\\c"), "a_b_c");
    assert_eq!(decimal_text(0), "0");
    assert_eq!(signed_decimal_text(-305), "-305");
    assert_eq!(sorted_unique(&strings(&["b", "a", "b", ""])), strings(&["", "a", "b"]));
}

#[test]
fn names_are_kept_once() {
    let (set, first) = NameSet::new().insert("a");
    let (set, second) = set.insert("b");
    let (set, again) = set.insert("a");
    assert_eq!((first, second, again), (0, 1, 0));
    assert_eq!(set.len(), 2);
    assert!(!set.is_empty());
    assert!(set.contains("b"));
    assert_eq!(set.find("c"), None);
    assert_eq!(set.name(1), "b");
    assert_eq!(set.to_vec(), strings(&["a", "b"]));
}

// ============== Source text ==============

fn value(src: &str) -> Expr {
    let body = parse_hcl(&format!("x = {}\n", src)).unwrap();
    find_attr(&body, "x").unwrap().clone()
}

#[test]
fn blocks_and_attributes_are_read() {
    let body = parse_hcl("a = 1\nb \"l1\" \"l2\" {\n  c = true\n}\n").unwrap();
    assert_eq!(body.items.len(), 2);
    match &body.items[1] {
        Structure::Block(block) => {
            assert_eq!(block.identifier, "b");
            assert_eq!(block.labels, strings(&["l1", "l2"]));
            assert_eq!(find_attr(&block.body, "c"), Some(&Expr::Bool(true)));
        }
        other => panic!("Expected a block, got {:?}", other),
    }
    assert!(parse_hcl("a = ").is_err());
}

#[test]
fn expressions_are_read() {
    assert_eq!(value("null"), Expr::Null);
    assert_eq!(value("\"a\""), Expr::String("a".to_string()));
    assert_eq!(value("local"), Expr::Variable("local".to_string()));
    assert!(matches!(value("[1, 2]"), Expr::Array(items) if items.len() == 2));
    assert!(matches!(value("{ a = 1, \"b\" = 2 }"), Expr::Object(items) if items.len() == 2));
    assert!(matches!(value("(a)"), Expr::Parenthesis(_)));
    assert!(matches!(value("a ? b : c"), Expr::Conditional { .. }));
    assert!(matches!(value("!a"), Expr::Unary { operator, .. } if operator == "!"));
    assert!(matches!(value("a + b"), Expr::Binary { operator, .. } if operator == "+"));
    match value("f(a, b...)") {
        Expr::FuncCall { name, args, expand_final, namespace } => {
            assert_eq!(name, "f");
            assert_eq!(args.len(), 2);
            assert!(expand_final);
            assert!(namespace.is_empty());
        }
        other => panic!("Expected a call, got {:?}", other),
    }
    match value("a.b[0]") {
        Expr::Traversal { operators, .. } => {
            assert_eq!(operators[0], TraversalOperator::GetAttr("b".to_string()));
            assert!(matches!(operators[1], TraversalOperator::Index(_)));
        }
        other => panic!("Expected a traversal, got {:?}", other),
    }
    match value("{ for k, v in xs : k => v... if v }") {
        Expr::For { key_var, value_var, key, grouping, cond, .. } => {
            assert_eq!(key_var, Some("k".to_string()));
            assert_eq!(value_var, "v");
            assert!(key.is_some() && cond.is_some() && grouping);
        }
        other => panic!("Expected a for expression, got {:?}", other),
    }
}

#[test]
fn templates_are_read() {
    match value("\"a${b}c\"") {
        Expr::Template { raw, heredoc, parts } => {
            assert_eq!(raw, "a${b}c");
            assert!(heredoc.is_none());
            let parts = parts.unwrap();
            assert_eq!(parts.len(), 3);
            assert!(matches!(&parts[0], TemplatePart::Literal(t) if t == "a"));
        }
        other => panic!("Expected a template, got {:?}", other),
    }
    match value("<<-EOT\n  a ${b}\nEOT\n") {
        Expr::Template { heredoc, .. } => {
            let heredoc = heredoc.unwrap();
            assert_eq!(heredoc.delimiter, "EOT");
            assert!(heredoc.indented);
        }
        other => panic!("Expected a heredoc, got {:?}", other),
    }
}

// ============== Cache ==============

#[test]
fn a_file_is_parsed_once() {
    let mut cache = ParseCache::new();
    assert!(cache.get("/a").is_none());
    let first = cache.get_or_parse("/a", "dependency \"x\" {\n  config_path = \"../x\"\n}\n").unwrap();
    assert_eq!(first.deps.len(), 1);
    let second = cache.get_or_parse("/a", "").unwrap();
    assert_eq!(second, first);
    assert_eq!(cache.get("/a"), Some(first));
    let other = cache.get_or_parse("/b", "").unwrap();
    assert_eq!(other.deps.len(), 0);
    assert_eq!(cache.stats(), (2, 1));
}

#[test]
fn what_cannot_be_parsed_is_not_kept() {
    let mut cache = ParseCache::default();
    match cache.get_or_parse("/a", "a = ") {
        Err(ProcessError::ParseError(message)) => assert!(message.starts_with("Failed to parse HCL: ")),
        other => panic!("Expected a parse error, got {:?}", other),
    }
    assert_eq!(cache.stats(), (0, 0));
}

// ============== Layers ==============

fn project(dir: &str, deps: Vec<&str>) -> Project {
    Project {
        name: dir.trim_start_matches('/').to_string(),
        dir: dir.to_string(),
        project_dependencies: deps.into_iter().map(String::from).collect(),
        watch_files: vec![],
        has_terraform_source: true,
    }
}

#[test]
fn projects_behind_a_cycle_get_layer_zero() {
    let projects =
        vec![project("/a", vec!["/b"]), project("/b", vec!["/a"]), project("/c", vec!["/a"]), project("/d", vec![])];
    let layers = compute_layers(&projects);
    for name in ["a", "b", "c", "d"] {
        assert_eq!(layers.get(name), Some(&0));
    }
}

#[test]
fn projects_that_lead_to_no_cycle_are_told() {
    let projects = vec![project("/a", vec!["/b"]), project("/b", vec!["/a", "/c"]), project("/c", vec!["/d"]), project("/d", vec![])];
    let layers = compute_layers(&projects);
    for (name, layer) in [("a", 0), ("b", 0), ("c", 1), ("d", 0)] {
        assert_eq!(layers.get(name), Some(&layer));
    }
}

#[test]
fn a_layer_is_one_above_the_highest_dependency() {
    let projects = vec![
        project("/d", vec!["/a", "/c"]),
        project("/c", vec!["/b"]),
        project("/b", vec!["/a"]),
        project("/a", vec![]),
    ];
    let layers = compute_layers(&projects);
    assert_eq!(layers.get("a"), Some(&0));
    assert_eq!(layers.get("b"), Some(&1));
    assert_eq!(layers.get("c"), Some(&2));
    assert_eq!(layers.get("d"), Some(&3));
}
