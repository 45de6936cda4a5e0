//! What holds of the texts that are put out, and of the order that they come in.

#[allow(unused_imports)]
use crate::cycle::{Cycle, DependencyEdge, EdgeType, EdgeView};
#[allow(unused_imports)]
use crate::cycle_report::{
    analysis_text, break_score, by_score, cycle_paragraph, cycle_paragraphs, cycle_section, cycle_sections, edge_lines,
    in_degree, node_lines, out_degree, path_lines, report_text,
};
#[allow(unused_imports)]
use crate::layers::layers_of;
#[allow(unused_imports)]
use crate::path::{lemma_part_order, part_precedes, parts_precede, PartView};
#[allow(unused_imports)]
use crate::cache::{config_at, total_deps};
#[allow(unused_imports)]
use crate::parser::ConfigView;
#[allow(unused_imports)]
use crate::pipeline::{
    all_edges, evaluation_error, failure_lines, failure_text, graph_text, is_disconnected, loose_edges, loose_lines,
    project_lines,
};
#[allow(unused_imports)]
use crate::processor::{bare_project, error_text, outcome, project_name, ErrorView, ProjectResultView};
#[allow(unused_imports)]
use crate::project::ProjectView;
#[allow(unused_imports)]
use crate::resolver::{normal_parts, EventView};
#[allow(unused_imports)]
use crate::stack::{count_event, count_file_calls, noted, reports, EvalReport};
#[allow(unused_imports)]
use crate::text::{decimal, holds_text, join_with, occurs_at, precedes, signed_decimal};
use vstd::prelude::*;

verus! {

proof fn lemma_holds(a: Seq<char>, m: Seq<char>, b: Seq<char>)
    ensures
        holds_text(a + m + b, m),
{
    let whole = a + m + b;
    assert(whole.subrange(a.len() as int, (a.len() + m.len()) as int) =~= m);
    assert(occurs_at(whole, m, a.len() as int));
}

proof fn lemma_holds_more(a: Seq<char>, s: Seq<char>, b: Seq<char>, m: Seq<char>)
    requires
        holds_text(s, m),
    ensures
        holds_text(a + s + b, m),
        holds_text(a + s, m),
        holds_text(s + b, m),
{
    let i = choose|i: int| occurs_at(s, m, i);
    let n = m.len() as int;
    let x = a + s + b;
    assert(x.subrange(a.len() + i, a.len() + i + n) =~= s.subrange(i, i + n));
    assert(occurs_at(x, m, a.len() + i));
    let y = a + s;
    assert(y.subrange(a.len() + i, a.len() + i + n) =~= s.subrange(i, i + n));
    assert(occurs_at(y, m, a.len() + i));
    let z = s + b;
    assert(z.subrange(i, i + n) =~= s.subrange(i, i + n));
    assert(occurs_at(z, m, i));
}

// ----------------------------------------------------------------------- projects

/// What came of a project is told: the project, or its directory with the reason.
pub proof fn law_outcome_is_told(dir: Seq<char>, p: ProjectView, m: Seq<char>)
    ensures
        outcome(dir, Ok(p)) == ProjectResultView::Processed(p),
        outcome(dir, Err(ErrorView::ParseError(m))) == (ProjectResultView::Failed {
            path: dir,
            error: "Failed to parse config: "@ + m,
        }),
        outcome(dir, Err(ErrorView::IoError(m))) == (ProjectResultView::Failed { path: dir, error: "IO error: "@ + m }),
        outcome(dir, Err(ErrorView::CircularReference(m))) == (ProjectResultView::Failed {
            path: dir,
            error: "Circular reference detected: "@ + m,
        }),
        bare_project(dir).dir == dir,
        bare_project(dir).name == project_name(dir),
        bare_project(dir).project_dependencies.len() == 0,
        bare_project(dir).watch_files.len() == 0,
        !bare_project(dir).has_terraform_source,
{
}

/// Every project that failed is named with its reason, behind the number of them.
pub proof fn law_failures_are_named(errors: Seq<(Seq<char>, Seq<char>)>, i: int)
    requires
        0 <= i < errors.len(),
    ensures
        holds_text(failure_lines(errors), "  "@ + errors[i].0 + ": "@ + errors[i].1 + "\n"@),
        holds_text(failure_text(errors), "  "@ + errors[i].0 + ": "@ + errors[i].1 + "\n"@),
        holds_text(failure_text(errors), decimal(errors.len())),
    decreases errors.len(),
{
    let line = "  "@ + errors[i].0 + ": "@ + errors[i].1 + "\n"@;
    let before = failure_lines(errors.drop_last());
    let last = "  "@ + errors.last().0 + ": "@ + errors.last().1 + "\n"@;
    let none = Seq::<char>::empty();
    if i < errors.len() - 1 {
        law_failures_are_named(errors.drop_last(), i);
        lemma_holds_more(none, before, last, line);
    } else {
        lemma_holds(before, line, none);
        assert(before + line + none =~= before + line);
    }
    let lines = failure_lines(errors);
    let head = "Warning: "@ + decimal(errors.len()) + " projects failed to process:\n"@;
    lemma_holds_more(head, lines, none, line);
    lemma_holds("Warning: "@, decimal(errors.len()), " projects failed to process:\n"@);
    lemma_holds_more(none, head, lines, decimal(errors.len()));
}

/// Each dependency that leads to no project is named with the project that has it.
pub proof fn law_loose_edges_are_named(edges: Seq<EdgeView>, i: int)
    requires
        0 <= i < edges.len(),
    ensures
        holds_text(
            loose_lines(edges),
            "Warning: dependency of "@ + edges[i].from + " matches no emitted unit: "@ + edges[i].to + "\n"@,
        ),
    decreases edges.len(),
{
    let line = "Warning: dependency of "@ + edges[i].from + " matches no emitted unit: "@ + edges[i].to + "\n"@;
    let before = loose_lines(edges.drop_last());
    let none = Seq::<char>::empty();
    if i < edges.len() - 1 {
        let last = "Warning: dependency of "@ + edges.last().from + " matches no emitted unit: "@ + edges.last().to + "\n"@;
        law_loose_edges_are_named(edges.drop_last(), i);
        lemma_holds_more(none, before, last, line);
    } else {
        lemma_holds(before, line, none);
        assert(before + line + none =~= before + line);
    }
}

/// Each project is listed with its layer and its dependencies.
pub proof fn law_projects_are_listed(projects: Seq<ProjectView>, all: Seq<ProjectView>, i: int)
    requires
        0 <= i < projects.len(),
    ensures
        holds_text(
            project_lines(projects, all),
            projects[i].name + " (layer "@ + decimal(layers_of(all)[projects[i].name] as nat) + "): "@ + join_with(
                projects[i].project_dependencies,
                ", "@,
            ) + "\n"@,
        ),
    decreases projects.len(),
{
    let p = projects[i];
    let line = p.name + " (layer "@ + decimal(layers_of(all)[p.name] as nat) + "): "@ + join_with(
        p.project_dependencies,
        ", "@,
    ) + "\n"@;
    let before = project_lines(projects.drop_last(), all);
    let none = Seq::<char>::empty();
    if i < projects.len() - 1 {
        let q = projects.last();
        let last = q.name + " (layer "@ + decimal(layers_of(all)[q.name] as nat) + "): "@ + join_with(
            q.project_dependencies,
            ", "@,
        ) + "\n"@;
        law_projects_are_listed(projects.drop_last(), all, i);
        lemma_holds_more(none, before, last, line);
    } else {
        lemma_holds(before, line, none);
        assert(before + line + none =~= before + line);
    }
}

// ------------------------------------------------------------------------- cycles

proof fn lemma_node_named(nodes: Seq<String>, i: int)
    requires
        0 <= i < nodes.len(),
    ensures
        holds_text(node_lines(nodes), "  → "@ + nodes[i]@ + "\n"@),
    decreases nodes.len(),
{
    let line = "  → "@ + nodes[i]@ + "\n"@;
    let before = node_lines(nodes.drop_last());
    let none = Seq::<char>::empty();
    if i < nodes.len() - 1 {
        lemma_node_named(nodes.drop_last(), i);
        lemma_holds_more(none, before, "  → "@ + nodes.last()@ + "\n"@, line);
    } else {
        lemma_holds(before, line, none);
        assert(before + line + none =~= before + line);
    }
}

proof fn lemma_cycle_named(cycles: Seq<Cycle>, k: int, m: Seq<char>)
    requires
        0 <= k < cycles.len(),
        holds_text(cycle_paragraph((k + 1) as nat, cycles[k]), m),
    ensures
        holds_text(cycle_paragraphs(cycles), m),
    decreases cycles.len(),
{
    let before = cycle_paragraphs(cycles.drop_last());
    let last = cycle_paragraph(cycles.len(), cycles.last());
    let none = Seq::<char>::empty();
    if k < cycles.len() - 1 {
        lemma_cycle_named(cycles.drop_last(), k, m);
        lemma_holds_more(none, before, last, m);
    } else {
        lemma_holds_more(before, last, none, m);
    }
}

/// The report names every node of every cycle, and nothing is reported without a cycle.
pub proof fn law_cycles_are_reported(cycles: Seq<Cycle>, k: int, i: int)
    ensures
        cycles.len() == 0 ==> report_text(cycles).len() == 0,
        0 <= k < cycles.len() && 0 <= i < cycles[k].nodes@.len() ==> holds_text(
            report_text(cycles),
            "  → "@ + cycles[k].nodes@[i]@ + "\n"@,
        ),
        cycles.len() > 0 ==> holds_text(report_text(cycles), decimal(cycles.len())),
{
    let none = Seq::<char>::empty();
    if cycles.len() > 0 {
        let plural = if cycles.len() == 1 {
            ""@
        } else {
            "s"@
        };
        let start = "⚠️  WARNING: Dependency cycles detected ("@;
        let head = start + decimal(cycles.len()) + " cycle"@ + plural + " found)\n\n"@;
        let body = cycle_paragraphs(cycles);
        assert(report_text(cycles) == head + body);
        lemma_holds(start, decimal(cycles.len()), " cycle"@);
        lemma_holds_more(none, start + decimal(cycles.len()) + " cycle"@, plural, decimal(cycles.len()));
        lemma_holds_more(
            none,
            start + decimal(cycles.len()) + " cycle"@ + plural,
            " found)\n\n"@,
            decimal(cycles.len()),
        );
        lemma_holds_more(none, head, body, decimal(cycles.len()));
        if 0 <= k < cycles.len() && 0 <= i < cycles[k].nodes@.len() {
            let nodes = cycles[k].nodes@;
            let line = "  → "@ + nodes[i]@ + "\n"@;
            lemma_node_named(nodes, i);
            let front = "Cycle #"@ + decimal((k + 1) as nat) + ":\n"@;
            let back = "  ↩ back to "@ + nodes[0]@ + "\n\n"@;
            lemma_holds_more(front, node_lines(nodes), back, line);
            assert(cycle_paragraph((k + 1) as nat, cycles[k]) == front + node_lines(nodes) + back);
            lemma_cycle_named(cycles, k, line);
            lemma_holds_more(head, body, none, line);
        }
    }
}

/// Of the edges of a cycle, in the order of their scores, the first is suggested to be broken, and no other.
pub proof fn law_first_edge_is_suggested(edges: Seq<DependencyEdge>, list: Seq<DependencyEdge>, e: DependencyEdge)
    ensures
        ({
            let line = "  "@ + e.from@ + " → "@ + e.to@ + " | "@ + (match e.edge_type {
                EdgeType::Dependency => "Dependency"@,
                EdgeType::Include => "Include"@,
                EdgeType::TerraformSource => "TerraformSource"@,
                EdgeType::ReadConfig => "ReadConfig"@,
                EdgeType::FileRead => "FileRead"@,
            }) + " | score: "@ + signed_decimal(break_score(edges, e));
            edge_lines(edges, list.push(e)) == edge_lines(edges, list) + (line + (if list.len() == 0 {
                " → SUGGESTED BREAK"@
            } else {
                ""@
            }) + "\n"@)
        }),
        edge_lines(edges, Seq::empty()).len() == 0,
{
    assert(list.push(e).drop_last() =~= list);
}

// ------------------------------------------------------------------------- events

/// Each event is counted, under its own kind: one more event adds one to the count of its kind, and nothing to the others; a
/// call of a file function in a stack file is counted once, however often it is made.
pub proof fn law_events_are_counted(r: EvalReport, s: EvalReport, events: Seq<EventView>, e: EventView)
    requires
        reports(r, events),
        reports(s, events.push(e)),
    ensures
        s.values_failures == r.values_failures + (if e is ValuesFailure {
            1int
        } else {
            0
        }),
        s.source_path_failures == r.source_path_failures + (if e is SourcePathFailure {
            1int
        } else {
            0
        }),
        s.file_io_failures == r.file_io_failures + (if e is FileCall && !events.contains(e) {
            1int
        } else {
            0
        }),
        s.cycle_skipped == r.cycle_skipped + (if e is CycleSkipped {
            1int
        } else {
            0
        }),
        s.remote_sources_skipped == r.remote_sources_skipped + (if e is RemoteSkipped {
            1int
        } else {
            0
        }),
        s.missing_child_stack == r.missing_child_stack + (if e is MissingChild {
            1int
        } else {
            0
        }),
        s.recursion_depth_exceeded == r.recursion_depth_exceeded + (if e is DepthExceeded {
            1int
        } else {
            0
        }),
{
    assert(events.push(e).drop_last() =~= events);
}

/// Where nothing happened, nothing is counted.
pub proof fn law_nothing_counted(r: EvalReport)
    requires
        reports(r, Seq::empty()),
    ensures
        r.values_failures == 0,
        r.source_path_failures == 0,
        r.file_io_failures == 0,
        r.cycle_skipped == 0,
        r.remote_sources_skipped == 0,
        r.missing_child_stack == 0,
        r.recursion_depth_exceeded == 0,
{
}

// -------------------------------------------------------------------------- order

/// Texts are ordered by the first character in which they differ, and a text comes before all that go on behind it.
pub proof fn law_texts_in_order(front: Seq<char>, x: char, a: Seq<char>, y: char, b: Seq<char>)
    requires
        x != y,
    ensures
        precedes(front + seq![x] + a, front + seq![y] + b) <==> (x as int) < (y as int),
        precedes(front, front + seq![y] + b),
        !precedes(front + seq![y] + b, front),
        !precedes(front, front),
    decreases front.len(),
{
    let s = front + seq![x] + a;
    let t = front + seq![y] + b;
    if front.len() > 0 {
        let rest = front.skip(1);
        law_texts_in_order(rest, x, a, y, b);
        assert(s.skip(1) =~= rest + seq![x] + a);
        assert(t.skip(1) =~= rest + seq![y] + b);
    } else {
        assert(s[0] == x);
        assert(t[0] == y);
    }
}

/// Paths are ordered part by part, by the first names in which they differ, and a directory comes before all that lies in it.
pub proof fn law_paths_in_order(front: Seq<PartView>, x: Seq<char>, a: Seq<PartView>, y: Seq<char>, b: Seq<PartView>)
    requires
        x != y,
    ensures
        parts_precede(front + seq![PartView::Normal(x)] + a, front + seq![PartView::Normal(y)] + b) <==> precedes(x, y),
        parts_precede(front, front + seq![PartView::Normal(y)] + b),
        !parts_precede(front + seq![PartView::Normal(y)] + b, front),
    decreases front.len(),
{
    let s = front + seq![PartView::Normal(x)] + a;
    let t = front + seq![PartView::Normal(y)] + b;
    if front.len() > 0 {
        let rest = front.skip(1);
        law_paths_in_order(rest, x, a, y, b);
        assert(s.skip(1) =~= rest + seq![PartView::Normal(x)] + a);
        assert(t.skip(1) =~= rest + seq![PartView::Normal(y)] + b);
        lemma_part_order(front[0], front[0], front[0]);
    } else {
        assert(s[0] == PartView::Normal(x));
        assert(t[0] == PartView::Normal(y));
    }
}

/// `.` is left out, `..` takes the name in front of it away, and there is nothing above the root.
pub proof fn law_dots_are_resolved(front: Seq<PartView>, x: Seq<char>)
    ensures
        normal_parts(front.push(PartView::CurDir)) == normal_parts(front),
        normal_parts(front.push(PartView::Normal(x))) == normal_parts(front).push(PartView::Normal(x)),
        normal_parts(front.push(PartView::Normal(x)).push(PartView::ParentDir)) == normal_parts(front),
        normal_parts(seq![PartView::RootDir, PartView::ParentDir]) == seq![PartView::RootDir],
        normal_parts(seq![PartView::ParentDir, PartView::ParentDir]) == seq![PartView::ParentDir, PartView::ParentDir],
{
    let named = front.push(PartView::Normal(x));
    assert(front.push(PartView::CurDir).drop_last() =~= front);
    assert(named.drop_last() =~= front);
    assert(named.push(PartView::ParentDir).drop_last() =~= named);
    assert(normal_parts(named) == normal_parts(front).push(PartView::Normal(x)));
    assert(normal_parts(named).drop_last() =~= normal_parts(front));
    let none = Seq::<PartView>::empty();
    let root = seq![PartView::RootDir];
    let up = seq![PartView::ParentDir];
    assert(normal_parts(none) == none);
    assert(root.drop_last() =~= none);
    assert(up.drop_last() =~= none);
    assert(normal_parts(root) =~= root);
    assert(normal_parts(up) =~= up);
    assert(seq![PartView::RootDir, PartView::ParentDir].drop_last() =~= root);
    assert(seq![PartView::ParentDir, PartView::ParentDir].drop_last() =~= up);
    assert(up.push(PartView::ParentDir) =~= seq![PartView::ParentDir, PartView::ParentDir]);
}

/// A strict run that refuses cycles tells of them alone; any other tells of the cycles and of each dependency that leads nowhere, and
/// warns of a graph that is not connected unless it refuses it.
pub proof fn law_graph_is_told(projects: Seq<ProjectView>, cycles: Seq<Cycle>)
    ensures
        cycles.len() > 0 ==> graph_text(projects, cycles, true) == report_text(cycles),
        ({
            let loose = loose_lines(loose_edges(projects, all_edges(projects)));
            &&& cycles.len() == 0 ==> graph_text(projects, cycles, true) == loose
            &&& is_disconnected(projects) ==> graph_text(projects, cycles, false) == report_text(cycles) + loose
                + "Warning: no dependency links two emitted units\n"@
            &&& !is_disconnected(projects) ==> graph_text(projects, cycles, false) == report_text(cycles) + loose
        }),
{
    let loose = loose_lines(loose_edges(projects, all_edges(projects)));
    let none = Seq::<char>::empty();
    assert(report_text(cycles) + loose + none =~= report_text(cycles) + loose);
    if cycles.len() == 0 {
        assert(none + loose + none =~= loose);
    }
}

/// The analysis says how many cycles there are and how many projects they affect, and that there is none where there is none.
pub proof fn law_analysis_counts(edges: Seq<DependencyEdge>, cycles: Seq<Cycle>, affected: nat)
    ensures
        cycles.len() == 0 ==> analysis_text(edges, cycles, affected) == "✓ No cycles detected\n"@,
        cycles.len() > 0 ==> analysis_text(edges, cycles, affected) == "🔍 Cycle Analysis\n\nFound "@ + decimal(cycles.len())
            + " cycle(s) affecting "@ + decimal(affected) + " project(s)\n\n"@ + cycle_sections(edges, cycles),
{
}

/// Each node of a cycle is listed in turn, with the numbers of edges into it and out of it.
pub proof fn law_nodes_are_listed(edges: Seq<DependencyEdge>, nodes: Seq<String>, t: String)
    ensures
        path_lines(edges, nodes.push(t)) == path_lines(edges, nodes) + ("  "@ + decimal(nodes.len() + 1) + ". "@ + t@
            + " (in-degree: "@ + decimal(in_degree(edges, t@)) + ", out-degree: "@ + decimal(out_degree(edges, t@)) + ")\n"@),
        path_lines(edges, Seq::empty()).len() == 0,
{
    assert(nodes.push(t).drop_last() =~= nodes);
}

/// The edges of a cycle are told in the order of their scores, under its nodes; each cycle in turn.
pub proof fn law_cycles_are_analysed(edges: Seq<DependencyEdge>, cycles: Seq<Cycle>, c: Cycle)
    ensures
        holds_text(cycle_sections(edges, cycles.push(c)), edge_lines(edges, by_score(edges, c.edges@))),
        holds_text(cycle_sections(edges, cycles.push(c)), path_lines(edges, c.nodes@)),
        cycle_sections(edges, cycles).is_prefix_of(cycle_sections(edges, cycles.push(c))),
        cycle_sections(edges, Seq::empty()).len() == 0,
{
    let all = cycles.push(c);
    assert(all.drop_last() =~= cycles);
    let none = Seq::<char>::empty();
    let before = cycle_sections(edges, cycles);
    let section = cycle_section(edges, all.len(), c);
    let lines = edge_lines(edges, by_score(edges, c.edges@));
    let nodes = path_lines(edges, c.nodes@);
    let a = "━━━━━━━━━━━━━━━━━━━━━━━━━━━━━━━━━━━━━━━━\nCycle #"@ + decimal(all.len()) + " ("@ + decimal(c.nodes@.len())
        + " projects)\n\nPath:\n"@;
    let b = "\nEdges (sorted by break priority):\n"@;
    assert(section == a + nodes + b + lines + "\n"@);
    lemma_holds(a + nodes + b, lines, "\n"@);
    lemma_holds(a, nodes, b);
    lemma_holds_more(none, a + nodes + b, lines, nodes);
    lemma_holds_more(none, a + nodes + b + lines, "\n"@, nodes);
    lemma_holds_more(before, section, none, lines);
    lemma_holds_more(before, section, none, nodes);
    assert((before + section).subrange(0, before.len() as int) =~= before);
}

/// What a strict run says of stack files that could not be evaluated names each kind of failure with its number.
pub proof fn law_evaluation_failures_are_named(report: EvalReport)
    requires
        report.sum() > 0,
    ensures
        ({
            let t = evaluation_error(report, true)->0;
            &&& holds_text(t, decimal(report.values_failures as nat) + " values, "@)
            &&& holds_text(t, decimal(report.source_path_failures as nat) + " source paths, "@)
            &&& holds_text(t, decimal(report.file_io_failures as nat) + " file reads, "@)
            &&& holds_text(t, decimal(report.cycle_skipped as nat) + " cycles, "@)
            &&& holds_text(t, decimal(report.remote_sources_skipped as nat) + " remote sources, "@)
            &&& holds_text(t, decimal(report.missing_child_stack as nat) + " missing stack files, "@)
            &&& holds_text(t, decimal(report.recursion_depth_exceeded as nat) + " stacks too deep"@)
        }),
{
    let t = evaluation_error(report, true)->0;
    let none = Seq::<char>::empty();
    let h = "Stack files could not be evaluated: "@;
    let a = decimal(report.values_failures as nat) + " values, "@;
    let b = decimal(report.source_path_failures as nat) + " source paths, "@;
    let c = decimal(report.file_io_failures as nat) + " file reads, "@;
    let d = decimal(report.cycle_skipped as nat) + " cycles, "@;
    let e = decimal(report.remote_sources_skipped as nat) + " remote sources, "@;
    let f = decimal(report.missing_child_stack as nat) + " missing stack files, "@;
    let g = decimal(report.recursion_depth_exceeded as nat) + " stacks too deep"@;
    assert(t =~= h + a + b + c + d + e + f + g);
    assert(t =~= h + a + (b + c + d + e + f + g));
    lemma_holds(h, a, b + c + d + e + f + g);
    assert(t =~= (h + a) + b + (c + d + e + f + g));
    lemma_holds(h + a, b, c + d + e + f + g);
    assert(t =~= (h + a + b) + c + (d + e + f + g));
    lemma_holds(h + a + b, c, d + e + f + g);
    assert(t =~= (h + a + b + c) + d + (e + f + g));
    lemma_holds(h + a + b + c, d, e + f + g);
    assert(t =~= (h + a + b + c + d) + e + (f + g));
    lemma_holds(h + a + b + c + d, e, f + g);
    assert(t =~= (h + a + b + c + d + e) + f + g);
    lemma_holds(h + a + b + c + d + e, f, g);
    assert(t =~= (h + a + b + c + d + e + f) + g + none);
    lemma_holds(h + a + b + c + d + e + f, g, none);
}

/// The cache counts the dependencies of all configurations that it holds, and finds a configuration under its own path alone.
pub proof fn law_cache_counts_and_finds(
    parsed: Seq<(Seq<char>, ConfigView)>,
    key: Seq<char>,
    config: ConfigView,
    other: Seq<char>,
)
    requires
        other != key,
    ensures
        total_deps(parsed.push((key, config))) == total_deps(parsed) + config.deps.len(),
        total_deps(Seq::empty()) == 0,
        config_at(parsed.push((key, config)), key) == Some(config),
        config_at(parsed.push((key, config)), other) == config_at(parsed, other),
        config_at(Seq::empty(), key) is None,
{
    assert(parsed.push((key, config)).drop_last() =~= parsed);
}

} // verus!
