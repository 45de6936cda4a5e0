use terragrunt_dag::{analyze_cycles, detect_cycles, report_cycles, DependencyEdge, EdgeType};

#[test]
fn test_no_cycles_returns_topological_order() {
    let edges = vec![
        DependencyEdge {
            from: "a".to_string(),
            to: "b".to_string(),
            edge_type: EdgeType::Dependency,
        },
        DependencyEdge {
            from: "b".to_string(),
            to: "c".to_string(),
            edge_type: EdgeType::Dependency,
        },
    ];

    let result = detect_cycles(&edges);

    assert_eq!(result.cycles.len(), 0);
    assert_eq!(result.in_cycle.len(), 0);
    assert_eq!(result.ordered.len(), 3);

    // Verify topological order: dependencies first
    // a→b means "a depends on b", so b must come before a
    // b→c means "b depends on c", so c must come before b
    // Result order should be: c, b, a
    let a_pos = result.ordered.iter().position(|n| n == "a").unwrap();
    let b_pos = result.ordered.iter().position(|n| n == "b").unwrap();
    let c_pos = result.ordered.iter().position(|n| n == "c").unwrap();
    assert!(c_pos < b_pos);
    assert!(b_pos < a_pos);
}

#[test]
fn test_simple_two_node_cycle() {
    let edges = vec![
        DependencyEdge {
            from: "a".to_string(),
            to: "b".to_string(),
            edge_type: EdgeType::Dependency,
        },
        DependencyEdge {
            from: "b".to_string(),
            to: "a".to_string(),
            edge_type: EdgeType::Include,
        },
    ];

    let result = detect_cycles(&edges);

    assert_eq!(result.cycles.len(), 1);
    assert_eq!(result.in_cycle.len(), 2);
    assert!(result.in_cycle.contains("a"));
    assert!(result.in_cycle.contains("b"));
    assert_eq!(result.ordered.len(), 0);

    let cycle = &result.cycles[0];
    assert_eq!(cycle.nodes.len(), 2);
    assert_eq!(cycle.edges.len(), 2);
}

#[test]
fn test_three_node_cycle() {
    let edges = vec![
        DependencyEdge {
            from: "a".to_string(),
            to: "b".to_string(),
            edge_type: EdgeType::Dependency,
        },
        DependencyEdge {
            from: "b".to_string(),
            to: "c".to_string(),
            edge_type: EdgeType::Include,
        },
        DependencyEdge {
            from: "c".to_string(),
            to: "a".to_string(),
            edge_type: EdgeType::ReadConfig,
        },
    ];

    let result = detect_cycles(&edges);

    assert_eq!(result.cycles.len(), 1);
    assert_eq!(result.in_cycle.len(), 3);
    assert_eq!(result.ordered.len(), 0);

    let cycle = &result.cycles[0];
    assert_eq!(cycle.nodes.len(), 3);
    assert_eq!(cycle.edges.len(), 3);
}

#[test]
fn test_multiple_cycles() {
    let edges = vec![
        // Cycle 1: a <-> b
        DependencyEdge {
            from: "a".to_string(),
            to: "b".to_string(),
            edge_type: EdgeType::Dependency,
        },
        DependencyEdge {
            from: "b".to_string(),
            to: "a".to_string(),
            edge_type: EdgeType::Include,
        },
        // Cycle 2: x -> y -> z -> x
        DependencyEdge {
            from: "x".to_string(),
            to: "y".to_string(),
            edge_type: EdgeType::Dependency,
        },
        DependencyEdge {
            from: "y".to_string(),
            to: "z".to_string(),
            edge_type: EdgeType::Dependency,
        },
        DependencyEdge {
            from: "z".to_string(),
            to: "x".to_string(),
            edge_type: EdgeType::Dependency,
        },
    ];

    let result = detect_cycles(&edges);

    assert_eq!(result.cycles.len(), 2);
    assert_eq!(result.in_cycle.len(), 5);
    assert_eq!(result.ordered.len(), 0);
}

#[test]
fn test_mixed_cycle_and_dag() {
    let edges = vec![
        // DAG part
        DependencyEdge {
            from: "root".to_string(),
            to: "a".to_string(),
            edge_type: EdgeType::Dependency,
        },
        // Cycle: a -> b -> c -> a
        DependencyEdge {
            from: "a".to_string(),
            to: "b".to_string(),
            edge_type: EdgeType::Dependency,
        },
        DependencyEdge {
            from: "b".to_string(),
            to: "c".to_string(),
            edge_type: EdgeType::Include,
        },
        DependencyEdge {
            from: "c".to_string(),
            to: "a".to_string(),
            edge_type: EdgeType::ReadConfig,
        },
        // Another DAG node
        DependencyEdge {
            from: "root".to_string(),
            to: "d".to_string(),
            edge_type: EdgeType::Dependency,
        },
    ];

    let result = detect_cycles(&edges);

    assert_eq!(result.cycles.len(), 1);
    assert_eq!(result.in_cycle.len(), 3);
    assert!(result.in_cycle.contains("a"));
    assert!(result.in_cycle.contains("b"));
    assert!(result.in_cycle.contains("c"));
    assert!(!result.in_cycle.contains("root"));
    assert!(!result.in_cycle.contains("d"));

    // root and d should be in topological order
    assert!(result.ordered.contains(&"root".to_string()));
    assert!(result.ordered.contains(&"d".to_string()));
}

#[test]
fn test_edge_type_weights() {
    assert_eq!(EdgeType::ReadConfig.weight(), 2);
    assert_eq!(EdgeType::Include.weight(), 3);
    assert_eq!(EdgeType::FileRead.weight(), 4);
    assert_eq!(EdgeType::TerraformSource.weight(), 5);
    assert_eq!(EdgeType::Dependency.weight(), 8);

    // Verify ordering
    assert!(EdgeType::ReadConfig.weight() < EdgeType::Include.weight());
    assert!(EdgeType::Include.weight() < EdgeType::FileRead.weight());
    assert!(EdgeType::FileRead.weight() < EdgeType::TerraformSource.weight());
    assert!(EdgeType::TerraformSource.weight() < EdgeType::Dependency.weight());
}

#[test]
fn test_report_cycles_output() {
    let edges = vec![
        DependencyEdge {
            from: "a".to_string(),
            to: "b".to_string(),
            edge_type: EdgeType::Dependency,
        },
        DependencyEdge {
            from: "b".to_string(),
            to: "a".to_string(),
            edge_type: EdgeType::Include,
        },
    ];

    let result = detect_cycles(&edges);
    let mut output_str = String::new();

    report_cycles(&result, &mut output_str);

    assert!(output_str.contains("WARNING: Dependency cycles detected"));
    assert!(output_str.contains("Cycle #1:"));
    assert!(output_str.contains("→ a"));
    assert!(output_str.contains("→ b"));
    assert!(output_str.contains("↩ back to"));
}

#[test]
fn test_report_cycles_no_output_when_no_cycles() {
    let edges = vec![DependencyEdge {
        from: "a".to_string(),
        to: "b".to_string(),
        edge_type: EdgeType::Dependency,
    }];

    let result = detect_cycles(&edges);
    let mut output_str = String::new();

    report_cycles(&result, &mut output_str);

    assert_eq!(output_str, "");
}

#[test]
fn test_analyze_cycles_output() {
    let edges = vec![
        DependencyEdge {
            from: "a".to_string(),
            to: "b".to_string(),
            edge_type: EdgeType::Include,
        },
        DependencyEdge {
            from: "b".to_string(),
            to: "a".to_string(),
            edge_type: EdgeType::Dependency,
        },
    ];

    let result = detect_cycles(&edges);
    let mut output_str = String::new();

    analyze_cycles(&result, &edges, &mut output_str);

    assert!(output_str.contains("🔍 Cycle Analysis"));
    assert!(output_str.contains("Found 1 cycle(s)"));
    assert!(output_str.contains("Cycle #1"));
    assert!(output_str.contains("Path:"));
    assert!(output_str.contains("in-degree:"));
    assert!(output_str.contains("out-degree:"));
    assert!(output_str.contains("Edges (sorted by break priority):"));
    assert!(output_str.contains("SUGGESTED BREAK"));
}

#[test]
fn test_analyze_cycles_no_cycles() {
    let edges = vec![DependencyEdge {
        from: "a".to_string(),
        to: "b".to_string(),
        edge_type: EdgeType::Dependency,
    }];

    let result = detect_cycles(&edges);
    let mut output_str = String::new();

    analyze_cycles(&result, &edges, &mut output_str);

    assert!(output_str.contains("✓ No cycles detected"));
}

#[test]
fn test_empty_graph() {
    let edges: Vec<DependencyEdge> = vec![];
    let result = detect_cycles(&edges);

    assert_eq!(result.cycles.len(), 0);
    assert_eq!(result.in_cycle.len(), 0);
    assert_eq!(result.ordered.len(), 0);
}

#[test]
fn test_self_loop() {
    let edges = vec![DependencyEdge {
        from: "a".to_string(),
        to: "a".to_string(),
        edge_type: EdgeType::Dependency,
    }];

    let result = detect_cycles(&edges);

    assert_eq!(result.cycles.len(), 1);
    assert_eq!(result.in_cycle.len(), 1);
    assert!(result.in_cycle.contains("a"));

    let cycle = &result.cycles[0];
    assert_eq!(cycle.nodes.len(), 1);
    assert_eq!(cycle.nodes[0], "a");
}

fn depends(from: &str, to: &str) -> DependencyEdge {
    DependencyEdge { from: from.to_string(), to: to.to_string(), edge_type: EdgeType::Dependency }
}

#[test]
fn what_hangs_behind_a_cycle_is_ordered() {
    let result = detect_cycles(&[depends("a", "b"), depends("b", "a"), depends("b", "c"), depends("c", "d"), depends("x", "a")]);

    assert_eq!(result.in_cycle.to_vec(), vec!["a".to_string(), "b".to_string()]);
    assert_eq!(result.cycles.len(), 1);
    assert_eq!(result.ordered, vec!["d".to_string(), "c".to_string(), "x".to_string()]);
}

#[test]
fn what_lies_between_two_cycles_is_ordered() {
    let result = detect_cycles(&[
        depends("a", "b"),
        depends("b", "a"),
        depends("b", "between"),
        depends("between", "c"),
        depends("c", "d"),
        depends("d", "c"),
    ]);

    assert_eq!(result.in_cycle.len(), 4);
    assert!(!result.in_cycle.contains("between"));
    assert_eq!(result.ordered, vec!["between".to_string()]);
    assert_eq!(result.cycles.len(), 2);
}
