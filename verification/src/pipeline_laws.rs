//! What holds of the projects that are chosen, and of what is said of them.

#[allow(unused_imports)]
use crate::changes::glob_verdict;
#[allow(unused_imports)]
use crate::cycle::{Cycle, DependencyEdge, EdgeType, EdgeView};
#[allow(unused_imports)]
use crate::cycle_report::{break_score, in_degree, out_degree};
#[allow(unused_imports)]
use crate::parser::{first_attr, path_of};
#[allow(unused_imports)]
use crate::parser_laws::{gives, lacks, lemma_first_attr};
#[allow(unused_imports)]
use crate::path::{is_plain, path_parts, stripped};
#[allow(unused_imports)]
use crate::pipeline::{
    all_edges, edges_of, evaluation_error, failed, filtered, graph_error, is_disconnected, is_emitted, law_disconnected,
    loose_edges, passes_filter, passing, seen_from, sourceless, with_source,
};
#[allow(unused_imports)]
use crate::processor::ProjectResultView;
#[allow(unused_imports)]
use crate::project::ProjectView;
#[allow(unused_imports)]
use crate::stack::EvalReport;
#[allow(unused_imports)]
use crate::stack_file::{block_kind, stack_of, unit_of, units_of, BlockKind, UnitView};
#[allow(unused_imports)]
use crate::syntax::{AttributeView, BlockView, ContentsView, ExprView, StructureView};
use vstd::prelude::*;

verus! {

proof fn lemma_push_contains<T>(s: Seq<T>, x: T, y: T)
    ensures
        s.push(x).contains(y) <==> s.contains(y) || x == y,
{
    if s.contains(y) {
        let i = choose|i: int| 0 <= i < s.len() && s[i] == y;
        assert(s.push(x)[i] == y);
    }
    if x == y {
        assert(s.push(x)[s.len() as int] == y);
    }
    if s.push(x).contains(y) {
        let i = choose|i: int| 0 <= i < s.push(x).len() && s.push(x)[i] == y;
        if i < s.len() {
            assert(s[i] == y);
        }
    }
}

proof fn lemma_drop_contains<T>(s: Seq<T>, y: T)
    requires
        s.len() > 0,
    ensures
        s.contains(y) <==> s.drop_last().contains(y) || s.last() == y,
{
    assert(s.drop_last().push(s.last()) =~= s);
    lemma_push_contains(s.drop_last(), s.last(), y);
}

// ----------------------------------------------------------------------- filters

/// A filter lets through exactly the paths that match the pattern, as they are seen from the base directory.
pub proof fn law_filter_keeps_matches(pattern: Seq<char>, base: Seq<char>, paths: Seq<Seq<char>>, path: Seq<char>)
    ensures
        filtered(pattern, base, paths).contains(path) <==> paths.contains(path) && glob_verdict(
            pattern,
            match stripped(path, base) {
                Some(rest) => rest,
                None => path,
            },
        ) == Some(true),
        filtered(pattern, base, paths).len() <= paths.len(),
    decreases paths.len(),
{
    if paths.len() > 0 {
        let rest = paths.drop_last();
        law_filter_keeps_matches(pattern, base, rest, path);
        lemma_drop_contains(paths, path);
        lemma_push_contains(filtered(pattern, base, rest), paths.last(), path);
    }
}

/// A filter lets through exactly the projects whose directory matches, as it is seen from the base directory.
pub proof fn law_filter_keeps_matching_projects(
    pattern: Seq<char>,
    base: Seq<char>,
    projects: Seq<ProjectView>,
    p: ProjectView,
)
    ensures
        passing(pattern, base, projects).contains(p) <==> projects.contains(p) && glob_verdict(
            pattern,
            match stripped(p.dir, base) {
                Some(rest) => rest,
                None => p.dir,
            },
        ) == Some(true),
        passing(pattern, base, projects).len() <= projects.len(),
    decreases projects.len(),
{
    if projects.len() > 0 {
        let rest = projects.drop_last();
        law_filter_keeps_matching_projects(pattern, base, rest, p);
        lemma_drop_contains(projects, p);
        lemma_push_contains(passing(pattern, base, rest), projects.last(), p);
    }
}

/// The projects with a module are chosen, those without are named by their directories, and the failures are told with
/// their messages: each result is in exactly one of the three lists, and nothing else is.
pub proof fn law_results_are_sorted_out(results: Seq<ProjectResultView>, p: ProjectView, path: Seq<char>, error: Seq<char>)
    ensures
        with_source(results).contains(p) <==> results.contains(ProjectResultView::Processed(p)) && p.has_terraform_source,
        failed(results).contains((path, error)) <==> results.contains(ProjectResultView::Failed { path, error }),
        results.contains(ProjectResultView::Processed(p)) && !p.has_terraform_source ==> sourceless(results).contains(p.dir),
        with_source(results).len() + sourceless(results).len() + failed(results).len() == results.len(),
    decreases results.len(),
{
    if results.len() > 0 {
        let rest = results.drop_last();
        law_results_are_sorted_out(rest, p, path, error);
        lemma_drop_contains(results, ProjectResultView::Processed(p));
        lemma_drop_contains(results, ProjectResultView::Failed { path, error });
        match results.last() {
            ProjectResultView::Processed(q) => {
                lemma_push_contains(with_source(rest), q, p);
                lemma_push_contains(sourceless(rest), q.dir, p.dir);
            },
            ProjectResultView::Failed { path: a, error: b } => {
                lemma_push_contains(failed(rest), (a, b), (path, error));
            },
        }
    }
}

// ------------------------------------------------------------------------- graph

/// The graph has an edge from each project to each of its dependencies, and no other.
pub proof fn law_edges_are_dependencies(projects: Seq<ProjectView>, from: Seq<char>, to: Seq<char>)
    ensures
        all_edges(projects).contains(EdgeView { from, to, edge_type: EdgeType::Dependency }) <==> exists|i: int|
            0 <= i < projects.len() && (#[trigger] projects[i]).dir == from && projects[i].project_dependencies.contains(to),
        forall|k: int| 0 <= k < all_edges(projects).len() ==> (#[trigger] all_edges(projects)[k]).edge_type == EdgeType::Dependency,
    decreases projects.len(),
{
    let e = EdgeView { from, to, edge_type: EdgeType::Dependency };
    if projects.len() > 0 {
        let rest = projects.drop_last();
        let p = projects.last();
        let before = all_edges(rest);
        let more = edges_of(p);
        law_edges_are_dependencies(rest, from, to);
        if more.contains(e) {
            let k = choose|k: int| 0 <= k < more.len() && more[k] == e;
            assert(p.project_dependencies[k] == to);
            assert(projects[projects.len() - 1].dir == from);
            assert((before + more)[before.len() + k] == e);
        }
        if before.contains(e) {
            let k = choose|k: int| 0 <= k < before.len() && before[k] == e;
            assert((before + more)[k] == e);
            let i = choose|i: int|
                0 <= i < rest.len() && (#[trigger] rest[i]).dir == from && rest[i].project_dependencies.contains(to);
            assert(projects[i] == rest[i]);
        }
        if all_edges(projects).contains(e) {
            let k = choose|k: int| 0 <= k < (before + more).len() && (before + more)[k] == e;
            if k < before.len() {
                assert(before[k] == e);
            } else {
                assert(more[k - before.len()] == e);
            }
        }
        if exists|i: int|
            0 <= i < projects.len() && (#[trigger] projects[i]).dir == from && projects[i].project_dependencies.contains(to) {
            let i = choose|i: int|
                0 <= i < projects.len() && (#[trigger] projects[i]).dir == from && projects[i].project_dependencies.contains(to);
            if i < rest.len() {
                assert(rest[i] == projects[i]);
            } else {
                let k = choose|k: int| 0 <= k < p.project_dependencies.len() && p.project_dependencies[k] == to;
                assert(more[k] == e);
            }
        }
        assert forall|k: int| 0 <= k < all_edges(projects).len() implies (#[trigger] all_edges(projects)[k]).edge_type
            == EdgeType::Dependency by {
            if k < before.len() {
                assert(all_edges(projects)[k] == before[k]);
            } else {
                assert(all_edges(projects)[k] == more[k - before.len()]);
            }
        }
    }
}

/// The loose edges are exactly those to a directory that no project has.
pub proof fn law_loose_edges_lead_nowhere(projects: Seq<ProjectView>, edges: Seq<EdgeView>, e: EdgeView)
    ensures
        loose_edges(projects, edges).contains(e) <==> edges.contains(e) && forall|i: int|
            0 <= i < projects.len() ==> (#[trigger] projects[i]).dir != e.to,
    decreases edges.len(),
{
    if edges.len() > 0 {
        law_loose_edges_lead_nowhere(projects, edges.drop_last(), e);
        lemma_drop_contains(edges, e);
        lemma_push_contains(loose_edges(projects, edges.drop_last()), edges.last(), e);
    }
}

/// The graph is disconnected exactly where there are dependencies and none of them leads to a project; strict runs
/// refuse it, and refuse cycles; others refuse nothing.
pub proof fn law_disconnected_graph_is_refused(projects: Seq<ProjectView>, cycles: Seq<Cycle>, i: int, j: int)
    requires
        0 <= i < projects.len(),
        projects[i].project_dependencies.len() > 0,
    ensures
        0 <= j < projects.len() && projects[i].project_dependencies.contains(projects[j].dir) && cycles.len() == 0
            ==> graph_error(projects, cycles, true) is None,
        (forall|a: int, b: int|
            0 <= a < projects.len() && 0 <= b < projects.len() ==> !(#[trigger] projects[a]).project_dependencies.contains(
                (#[trigger] projects[b]).dir,
            )) ==> graph_error(projects, cycles, true) is Some,
        cycles.len() > 0 ==> graph_error(projects, cycles, true) is Some,
        graph_error(projects, cycles, false) is None,
{
    let edges = all_edges(projects);
    law_disconnected(projects, edges);
    let to = projects[i].project_dependencies[0];
    law_edges_are_dependencies(projects, projects[i].dir, to);
    assert(projects[i].project_dependencies.contains(to));
    let e = EdgeView { from: projects[i].dir, to, edge_type: EdgeType::Dependency };
    assert(edges.contains(e));
    assert(edges.len() > 0);
    if 0 <= j < projects.len() && projects[i].project_dependencies.contains(projects[j].dir) {
        law_edges_are_dependencies(projects, projects[i].dir, projects[j].dir);
        let f = EdgeView { from: projects[i].dir, to: projects[j].dir, edge_type: EdgeType::Dependency };
        assert(edges.contains(f));
        let k = choose|k: int| 0 <= k < edges.len() && edges[k] == f;
        assert(is_emitted(projects, edges[k].to));
    }
    if forall|a: int, b: int|
        0 <= a < projects.len() && 0 <= b < projects.len() ==> !(#[trigger] projects[a]).project_dependencies.contains(
            (#[trigger] projects[b]).dir,
        ) {
        assert forall|k: int| 0 <= k < edges.len() implies !is_emitted(projects, (#[trigger] edges[k]).to) by {
            let x = edges[k];
            law_edges_are_dependencies(projects, x.from, x.to);
            assert(edges.contains(x));
            let a = choose|a: int|
                0 <= a < projects.len() && (#[trigger] projects[a]).dir == x.from && projects[a].project_dependencies.contains(
                    x.to,
                );
            if is_emitted(projects, x.to) {
                let b = choose|b: int| 0 <= b < projects.len() && (#[trigger] projects[b]).dir == x.to;
                assert(projects[a].project_dependencies.contains(projects[b].dir));
            }
        }
    }
}

/// A strict run refuses stack files that any failure was counted for, of whatever kind; others refuse none.
pub proof fn law_failures_are_refused(report: EvalReport)
    ensures
        evaluation_error(report, false) is None,
        evaluation_error(report, true) is Some <==> report.values_failures > 0 || report.source_path_failures > 0
            || report.file_io_failures > 0 || report.cycle_skipped > 0 || report.remote_sources_skipped > 0
            || report.missing_child_stack > 0 || report.recursion_depth_exceeded > 0,
{
}

// ------------------------------------------------------------------------ breaking

/// One more edge counts for its own target and its own source, and for no other.
pub proof fn law_degrees_count_edges(edges: Seq<DependencyEdge>, e: DependencyEdge, t: Seq<char>)
    ensures
        in_degree(edges.push(e), t) == in_degree(edges, t) + (if e.to@ == t {
            1int
        } else {
            0
        }),
        out_degree(edges.push(e), t) == out_degree(edges, t) + (if e.from@ == t {
            1int
        } else {
            0
        }),
        in_degree(Seq::empty(), t) == 0,
        out_degree(Seq::empty(), t) == 0,
{
    assert(edges.push(e).drop_last() =~= edges);
}

/// The score of an edge begins with what its kind is worth: a configuration that is read least, a dependency most. It falls by
/// 5 with each edge into its target, up to ten of them; and it is 30 higher where at most two edges leave its source, and 15
/// higher where at most five do.
pub proof fn law_score(edges: Seq<DependencyEdge>, e: DependencyEdge)
    ensures
        ({
            let into = in_degree(edges, e.to@) as int;
            let out = out_degree(edges, e.from@) as int;
            let counted = if into > 10 {
                10int
            } else {
                into
            };
            let worth = match e.edge_type {
                EdgeType::ReadConfig => 20int,
                EdgeType::Include => 30,
                EdgeType::FileRead => 40,
                EdgeType::TerraformSource => 50,
                EdgeType::Dependency => 80,
            };
            let bonus = break_score(edges, e) - worth + 5 * counted;
            &&& out <= 2 ==> bonus == 30
            &&& 2 < out <= 5 ==> bonus == 15
            &&& out > 5 ==> bonus == 0
        }),
{
}

// ----------------------------------------------------------------------- stack files

/// A `unit` or `stack` block with a source and a path is declared, in its place among the others: at that path, from that
/// source, with the values that it gives.
pub proof fn law_declared_units(
    items: Seq<StructureView>,
    b: BlockView,
    i: int,
    source: ExprView,
    j: int,
    path: Seq<char>,
)
    requires
        gives(b, i, "source"@, source),
        gives(b, j, "path"@, ExprView::String(path)),
    ensures
        b.identifier == "unit"@ || b.identifier == "stack"@ ==> units_of(items.push(StructureView::Block(b))).len()
            == units_of(items).len() + 1,
        b.identifier == "unit"@ || b.identifier == "stack"@ ==> ({
            let all = units_of(items.push(StructureView::Block(b)));
            let u = all.last();
            &&& all.drop_last() == units_of(items)
            &&& u.path == path
            &&& u.source == path_of(source)
            &&& b.identifier == "unit"@ ==> u.kind == BlockKind::Unit
            &&& b.identifier == "stack"@ ==> u.kind == BlockKind::Stack
            &&& lacks(b, "values"@) ==> u.values_expr is None
            &&& forall|k: int, e: ExprView| #[trigger] gives(b, k, "values"@, e) ==> u.values_expr == Some(e)
        }),
        b.identifier != "unit"@ && b.identifier != "stack"@ ==> units_of(items.push(StructureView::Block(b)))
            == units_of(items),
{
    reveal_strlit("unit");
    reveal_strlit("stack");
    assert("unit"@.len() == 4);
    assert("stack"@.len() == 5);
    let body = b.body.items;
    lemma_first_attr(body, i, "source"@);
    lemma_first_attr(body, j, "path"@);
    let more = items.push(StructureView::Block(b));
    assert(more.drop_last() =~= items);
    if lacks(b, "values"@) {
        lemma_first_attr(body, body.len() as int, "values"@);
    }
    if b.identifier == "unit"@ || b.identifier == "stack"@ {
        let all = units_of(more);
        assert(all.drop_last() =~= units_of(items));
        assert forall|k: int, e: ExprView| #[trigger] gives(b, k, "values"@, e) implies all.last().values_expr == Some(e) by {
            lemma_first_attr(body, k, "values"@);
        }
    }
}

/// A block without a source, or without a path, is not declared; nor is an attribute.
pub proof fn law_undeclared_blocks(items: Seq<StructureView>, b: BlockView, a: AttributeView)
    ensures
        lacks(b, "source"@) || lacks(b, "path"@) ==> units_of(items.push(StructureView::Block(b))) == units_of(items),
        units_of(items.push(StructureView::Attribute(a))) == units_of(items),
{
    let body = b.body.items;
    assert(items.push(StructureView::Block(b)).drop_last() =~= items);
    assert(items.push(StructureView::Attribute(a)).drop_last() =~= items);
    if lacks(b, "source"@) {
        lemma_first_attr(body, body.len() as int, "source"@);
    }
    if lacks(b, "path"@) {
        lemma_first_attr(body, body.len() as int, "path"@);
    }
}

} // verus!
