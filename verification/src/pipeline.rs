//! What is done with processed projects: which are kept, what is said of the others, and the graph
//! that they make.

use crate::changes::{check_pattern, glob_match};
#[allow(unused_imports)]
use crate::changes::{glob_verdict, pattern_error};
use crate::cycle::{CycleDetectionResult, DependencyEdge, EdgeType};
#[allow(unused_imports)]
use crate::cycle::{Cycle, EdgeView};
use crate::cycle_report::report_cycles;
#[allow(unused_imports)]
use crate::cycle_report::report_text;
use crate::layers::compute_layers;
#[allow(unused_imports)]
use crate::layers::{layers_of, lemma_all_layered};
use crate::output::layer_of;
use crate::path::strip_prefix;
#[allow(unused_imports)]
use crate::path::stripped;
use crate::processor::ProjectResult;
#[allow(unused_imports)]
use crate::processor::{result_views, ProjectResultView};
use crate::project::Project;
#[allow(unused_imports)]
use crate::project::{project_views, ProjectView};
use crate::stack::EvalReport;
use crate::text::{concat, decimal_text, join};
#[allow(unused_imports)]
use crate::text::{decimal, join_with, opt_text, texts};
use vstd::prelude::*;

verus! {

// --------------------------------------------------------------------- filters

/// The path as a filter sees it: from the base directory where it lies under it.
pub open spec fn seen_from(path: Seq<char>, base: Seq<char>) -> Seq<char> {
    match stripped(path, base) {
        Some(rest) => rest,
        None => path,
    }
}

/// The filter lets the path through.
pub open spec fn passes_filter(pattern: Seq<char>, base: Seq<char>, path: Seq<char>) -> bool {
    glob_verdict(pattern, seen_from(path, base)) == Some(true)
}

/// The paths that the filter lets through, in order.
pub open spec fn filtered(pattern: Seq<char>, base: Seq<char>, paths: Seq<Seq<char>>) -> Seq<Seq<char>>
    decreases paths.len(),
{
    if paths.len() == 0 {
        Seq::empty()
    } else {
        let before = filtered(pattern, base, paths.drop_last());
        if passes_filter(pattern, base, paths.last()) {
            before.push(paths.last())
        } else {
            before
        }
    }
}

/// Whether the filter lets the path through.
pub fn filter_lets_through(pattern: &str, base_dir: &str, path: &str) -> (res: bool)
    ensures
        res == passes_filter(pattern@, base_dir@, path@),
{
    let seen = match strip_prefix(path, base_dir) {
        Some(rest) => rest,
        None => path.to_owned(),
    };
    match glob_match(pattern, seen.as_str()) {
        Some(b) => b,
        None => false,
    }
}

/// Filters project paths by a glob pattern; the message of the parser where it is no pattern.
pub fn filter_projects(paths: &Vec<String>, pattern: &str, base_dir: &str) -> (res: Result<Vec<String>, String>)
    ensures
        match res {
            Ok(kept) => pattern_error(pattern@) is None && texts(kept@) == filtered(pattern@, base_dir@, texts(paths@)),
            Err(m) => pattern_error(pattern@) == Some(m@),
        },
{
    match check_pattern(pattern) {
        Some(m) => {
            return Err(m);
        },
        None => {},
    }
    let ghost all = texts(paths@);
    let mut kept: Vec<String> = Vec::new();
    let mut i: usize = 0;
    assert(all.take(0) =~= Seq::empty());
    assert(texts(kept@) =~= Seq::empty());
    while i < paths.len()
        invariant
            i <= paths@.len(),
            all == texts(paths@),
            texts(kept@) == filtered(pattern@, base_dir@, all.take(i as int)),
        decreases paths@.len() - i,
    {
        let ghost before = texts(kept@);
        proof {
            assert(all.take(i + 1).drop_last() =~= all.take(i as int));
            assert(all.take(i + 1).last() == paths@[i as int]@);
        }
        if filter_lets_through(pattern, base_dir, paths[i].as_str()) {
            kept.push(paths[i].clone());
            assert(texts(kept@) =~= before.push(paths@[i as int]@));
        }
        i += 1;
    }
    assert(all.take(i as int) =~= all);
    Ok(kept)
}

/// The projects whose directories the filter lets through, in order.
pub open spec fn passing(pattern: Seq<char>, base: Seq<char>, projects: Seq<ProjectView>) -> Seq<ProjectView>
    decreases projects.len(),
{
    if projects.len() == 0 {
        Seq::empty()
    } else {
        let before = passing(pattern, base, projects.drop_last());
        if passes_filter(pattern, base, projects.last().dir) {
            before.push(projects.last())
        } else {
            before
        }
    }
}

/// Keeps the projects whose directories the filter lets through. A pattern that is rejected lets
/// nothing through.
pub fn keep_passing(projects: &[Project], pattern: &str, base_dir: &str) -> (res: Vec<Project>)
    ensures
        project_views(res@) == passing(pattern@, base_dir@, project_views(projects@)),
{
    let ghost all = project_views(projects@);
    let mut kept: Vec<Project> = Vec::new();
    let mut i: usize = 0;
    assert(all.take(0) =~= Seq::empty());
    assert(project_views(kept@) =~= Seq::empty());
    while i < projects.len()
        invariant
            i <= projects@.len(),
            all == project_views(projects@),
            project_views(kept@) == passing(pattern@, base_dir@, all.take(i as int)),
        decreases projects@.len() - i,
    {
        let ghost before = project_views(kept@);
        proof {
            assert(all.take(i + 1).drop_last() =~= all.take(i as int));
            assert(all.take(i + 1).last() == projects@[i as int]@);
        }
        if filter_lets_through(pattern, base_dir, projects[i].dir.as_str()) {
            let p = projects[i].clone();
            let ghost v = p@;
            kept.push(p);
            assert(project_views(kept@) =~= before.push(v));
        }
        i += 1;
    }
    assert(all.take(i as int) =~= all);
    kept
}

// ----------------------------------------------------------------- the outcome

/// Processed projects, by what is done with them.
#[derive(Debug, PartialEq, Eq)]
pub struct Selection {
    /// Those that are put out
    pub projects: Vec<Project>,
    /// The directories of those that have no terraform source
    pub without_source: Vec<String>,
    /// Those that could not be processed, with their messages
    pub errors: Vec<(String, String)>,
}

/// The projects with a terraform source.
pub open spec fn with_source(results: Seq<ProjectResultView>) -> Seq<ProjectView>
    decreases results.len(),
{
    if results.len() == 0 {
        Seq::empty()
    } else {
        let before = with_source(results.drop_last());
        match results.last() {
            ProjectResultView::Processed(p) => if p.has_terraform_source {
                before.push(p)
            } else {
                before
            },
            _ => before,
        }
    }
}

/// The directories of the projects without a terraform source.
pub open spec fn sourceless(results: Seq<ProjectResultView>) -> Seq<Seq<char>>
    decreases results.len(),
{
    if results.len() == 0 {
        Seq::empty()
    } else {
        let before = sourceless(results.drop_last());
        match results.last() {
            ProjectResultView::Processed(p) => if p.has_terraform_source {
                before
            } else {
                before.push(p.dir)
            },
            _ => before,
        }
    }
}

/// The projects that could not be processed.
pub open spec fn failed(results: Seq<ProjectResultView>) -> Seq<(Seq<char>, Seq<char>)>
    decreases results.len(),
{
    if results.len() == 0 {
        Seq::empty()
    } else {
        let before = failed(results.drop_last());
        match results.last() {
            ProjectResultView::Failed { path, error } => before.push((path, error)),
            _ => before,
        }
    }
}

/// The views of a list of messages.
pub open spec fn error_views(errors: Seq<(String, String)>) -> Seq<(Seq<char>, Seq<char>)> {
    errors.map_values(|e: (String, String)| (e.0@, e.1@))
}

/// Sorts processed projects by what is done with them.
pub fn select_projects(results: Vec<ProjectResult>) -> (res: Selection)
    ensures
        project_views(res.projects@) == with_source(result_views(results@)),
        texts(res.without_source@) == sourceless(result_views(results@)),
        error_views(res.errors@) == failed(result_views(results@)),
{
    let ghost all = result_views(results@);
    let mut projects: Vec<Project> = Vec::new();
    let mut without_source: Vec<String> = Vec::new();
    let mut errors: Vec<(String, String)> = Vec::new();
    let mut i: usize = 0;
    assert(all.take(0) =~= Seq::empty());
    assert(project_views(projects@) =~= Seq::empty());
    assert(texts(without_source@) =~= Seq::empty());
    assert(error_views(errors@) =~= Seq::empty());
    while i < results.len()
        invariant
            i <= results@.len(),
            all == result_views(results@),
            project_views(projects@) == with_source(all.take(i as int)),
            texts(without_source@) == sourceless(all.take(i as int)),
            error_views(errors@) == failed(all.take(i as int)),
        decreases results@.len() - i,
    {
        let ghost a = project_views(projects@);
        let ghost b = texts(without_source@);
        let ghost c = error_views(errors@);
        proof {
            assert(all.take(i + 1).drop_last() =~= all.take(i as int));
            assert(all.take(i + 1).last() == results@[i as int]@);
        }
        match &results[i] {
            ProjectResult::Processed(p) => {
                if p.has_terraform_source {
                    projects.push(p.clone());
                    assert(project_views(projects@) =~= a.push(p@));
                } else {
                    without_source.push(p.dir.clone());
                    assert(texts(without_source@) =~= b.push(p@.dir));
                }
            },
            ProjectResult::Failed { path, error } => {
                errors.push((path.clone(), error.clone()));
                assert(error_views(errors@) =~= c.push((path@, error@)));
            },
        }
        i += 1;
    }
    assert(all.take(i as int) =~= all);
    Selection { projects, without_source, errors }
}

/// The lines that say which projects could not be processed.
pub open spec fn failure_lines(errors: Seq<(Seq<char>, Seq<char>)>) -> Seq<char>
    decreases errors.len(),
{
    if errors.len() == 0 {
        Seq::empty()
    } else {
        failure_lines(errors.drop_last()) + ("  "@ + errors.last().0 + ": "@ + errors.last().1 + "\n"@)
    }
}

/// What is said of the projects that could not be processed; nothing where there are none.
pub open spec fn failure_text(errors: Seq<(Seq<char>, Seq<char>)>) -> Seq<char> {
    if errors.len() == 0 {
        Seq::empty()
    } else {
        "Warning: "@ + decimal(errors.len()) + " projects failed to process:\n"@ + failure_lines(errors)
    }
}

/// Says which projects could not be processed.
pub fn describe_failures(errors: &Vec<(String, String)>) -> (res: String)
    ensures
        res@ == failure_text(error_views(errors@)),
{
    let ghost all = error_views(errors@);
    let mut lines = String::new();
    let mut i: usize = 0;
    assert(all.take(0) =~= Seq::empty());
    assert(lines@ =~= Seq::empty());
    if errors.len() == 0 {
        return lines;
    }
    while i < errors.len()
        invariant
            i <= errors@.len(),
            all == error_views(errors@),
            lines@ == failure_lines(all.take(i as int)),
        decreases errors@.len() - i,
    {
        let ghost before = lines@;
        proof {
            assert(all.take(i + 1).drop_last() =~= all.take(i as int));
            assert(all.take(i + 1).last() == (errors@[i as int].0@, errors@[i as int].1@));
        }
        lines.append("  ");
        lines.append(errors[i].0.as_str());
        lines.append(": ");
        lines.append(errors[i].1.as_str());
        lines.append("\n");
        assert(lines@ =~= before + ("  "@ + errors@[i as int].0@ + ": "@ + errors@[i as int].1@ + "\n"@));
        i += 1;
    }
    assert(all.take(i as int) =~= all);
    let mut out = "Warning: ".to_owned();
    let count: u64 = errors.len() as u64;
    let number = decimal_text(count);
    out.append(number.as_str());
    out.append(" projects failed to process:\n");
    out.append(lines.as_str());
    out
}

// ------------------------------------------------------------------- the graph

/// The edges of one project.
pub open spec fn edges_of(p: ProjectView) -> Seq<EdgeView> {
    p.project_dependencies.map_values(
        |d: Seq<char>| EdgeView { from: p.dir, to: d, edge_type: EdgeType::Dependency },
    )
}

/// The edges of all projects, in order.
pub open spec fn all_edges(projects: Seq<ProjectView>) -> Seq<EdgeView>
    decreases projects.len(),
{
    if projects.len() == 0 {
        Seq::empty()
    } else {
        all_edges(projects.drop_last()) + edges_of(projects.last())
    }
}

/// The views of edges.
pub open spec fn edge_views(edges: Seq<DependencyEdge>) -> Seq<EdgeView> {
    edges.map_values(|e: DependencyEdge| e@)
}

/// Builds the edges of the dependency graph: one from each project to each of its dependencies.
pub fn build_edges_from_projects(projects: &[Project]) -> (res: Vec<DependencyEdge>)
    ensures
        edge_views(res@) == all_edges(project_views(projects@)),
{
    let ghost all = project_views(projects@);
    let mut out: Vec<DependencyEdge> = Vec::new();
    let mut i: usize = 0;
    assert(all.take(0) =~= Seq::empty());
    assert(edge_views(out@) =~= Seq::empty());
    while i < projects.len()
        invariant
            i <= projects@.len(),
            all == project_views(projects@),
            edge_views(out@) == all_edges(all.take(i as int)),
        decreases projects@.len() - i,
    {
        let ghost before = edge_views(out@);
        let p = &projects[i];
        let ghost mine = edges_of(p@);
        proof {
            assert(all.take(i + 1).drop_last() =~= all.take(i as int));
            assert(all.take(i + 1).last() == p@);
        }
        let mut k: usize = 0;
        assert(before + mine.take(0) =~= before);
        while k < p.project_dependencies.len()
            invariant
                k <= p.project_dependencies@.len(),
                mine == edges_of(p@),
                edge_views(out@) == before + mine.take(k as int),
            decreases p.project_dependencies@.len() - k,
        {
            let ghost had = edge_views(out@);
            let e = DependencyEdge {
                from: p.dir.clone(),
                to: p.project_dependencies[k].clone(),
                edge_type: EdgeType::Dependency,
            };
            let ghost ev = e@;
            out.push(e);
            proof {
                assert(edge_views(out@) =~= had.push(ev));
                assert(p@.project_dependencies[k as int] == p.project_dependencies@[k as int]@);
                assert(mine[k as int] == ev);
                assert(before + mine.take(k + 1) =~= had.push(ev));
            }
            k += 1;
        }
        assert(mine.take(k as int) =~= mine);
        i += 1;
    }
    assert(all.take(i as int) =~= all);
    out
}

/// A project is in the directory.
pub open spec fn is_emitted(projects: Seq<ProjectView>, dir: Seq<char>) -> bool {
    exists|i: int| 0 <= i < projects.len() && (#[trigger] projects[i]).dir == dir
}

fn emitted(projects: &[Project], dir: &str) -> (res: bool)
    ensures
        res == is_emitted(project_views(projects@), dir@),
{
    let ghost all = project_views(projects@);
    let mut i: usize = 0;
    while i < projects.len()
        invariant
            i <= projects@.len(),
            all == project_views(projects@),
            forall|j: int| 0 <= j < i ==> (#[trigger] all[j]).dir != dir@,
        decreases projects@.len() - i,
    {
        assert(all[i as int] == projects@[i as int]@);
        if crate::text::same(projects[i].dir.as_str(), dir) {
            return true;
        }
        i += 1;
    }
    false
}

/// The edges that lead to no project.
pub open spec fn loose_edges(projects: Seq<ProjectView>, edges: Seq<EdgeView>) -> Seq<EdgeView>
    decreases edges.len(),
{
    if edges.len() == 0 {
        Seq::empty()
    } else {
        let before = loose_edges(projects, edges.drop_last());
        if is_emitted(projects, edges.last().to) {
            before
        } else {
            before.push(edges.last())
        }
    }
}

/// Finds the dependencies that match no project.
pub fn unmatched_dependencies(projects: &[Project]) -> (res: Vec<DependencyEdge>)
    ensures
        edge_views(res@) == loose_edges(project_views(projects@), all_edges(project_views(projects@))),
{
    let edges = build_edges_from_projects(projects);
    let ghost views = project_views(projects@);
    let ghost all = edge_views(edges@);
    let mut out: Vec<DependencyEdge> = Vec::new();
    let mut i: usize = 0;
    assert(all.take(0) =~= Seq::empty());
    assert(edge_views(out@) =~= Seq::empty());
    while i < edges.len()
        invariant
            i <= edges@.len(),
            views == project_views(projects@),
            all == edge_views(edges@),
            edge_views(out@) == loose_edges(views, all.take(i as int)),
        decreases edges@.len() - i,
    {
        let ghost before = edge_views(out@);
        proof {
            assert(all.take(i + 1).drop_last() =~= all.take(i as int));
            assert(all.take(i + 1).last() == edges@[i as int]@);
        }
        let e = &edges[i];
        if !emitted(projects, e.to.as_str()) {
            let copy = DependencyEdge { from: e.from.clone(), to: e.to.clone(), edge_type: e.edge_type };
            let ghost cv = copy@;
            out.push(copy);
            assert(edge_views(out@) =~= before.push(cv));
        }
        i += 1;
    }
    assert(all.take(i as int) =~= all);
    out
}

/// Dependencies are declared, and none of them links two projects.
pub open spec fn is_disconnected(projects: Seq<ProjectView>) -> bool {
    let edges = all_edges(projects);
    edges.len() > 0 && loose_edges(projects, edges).len() == edges.len()
}

/// Whether dependencies are declared, and none of them links two projects: then nothing orders the
/// projects, although something was meant to.
pub fn graph_is_disconnected(projects: &[Project]) -> (res: bool)
    ensures
        res == is_disconnected(project_views(projects@)),
{
    let edges = build_edges_from_projects(projects);
    let loose = unmatched_dependencies(projects);
    proof {
        assert(edge_views(edges@).len() == edges@.len());
        assert(edge_views(loose@).len() == loose@.len());
    }
    edges.len() > 0 && loose.len() == edges.len()
}

/// The edges of a disconnected graph lead to no project, all of them.
pub proof fn law_disconnected(projects: Seq<ProjectView>, edges: Seq<EdgeView>)
    ensures
        loose_edges(projects, edges).len() <= edges.len(),
        loose_edges(projects, edges).len() == edges.len() <==> forall|i: int|
            0 <= i < edges.len() ==> !is_emitted(projects, (#[trigger] edges[i]).to),
    decreases edges.len(),
{
    if edges.len() > 0 {
        let rest = edges.drop_last();
        law_disconnected(projects, rest);
        if forall|i: int| 0 <= i < edges.len() ==> !is_emitted(projects, (#[trigger] edges[i]).to) {
            assert forall|i: int| 0 <= i < rest.len() implies !is_emitted(projects, (#[trigger] rest[i]).to) by {
                assert(rest[i] == edges[i]);
            }
            assert(!is_emitted(projects, edges[edges.len() - 1].to));
        }
        if loose_edges(projects, edges).len() == edges.len() {
            assert forall|i: int| 0 <= i < edges.len() implies !is_emitted(projects, (#[trigger] edges[i]).to) by {
                if i < rest.len() {
                    assert(rest[i] == edges[i]);
                }
            }
        }
    }
}

// ----------------------------------------------------------- what is said of it

/// What is said of the dependencies that match no project, line by line.
pub open spec fn loose_lines(edges: Seq<EdgeView>) -> Seq<char>
    decreases edges.len(),
{
    if edges.len() == 0 {
        Seq::empty()
    } else {
        loose_lines(edges.drop_last()) + ("Warning: dependency of "@ + edges.last().from + " matches no emitted unit: "@
            + edges.last().to + "\n"@)
    }
}

fn describe_loose(edges: &Vec<DependencyEdge>) -> (res: String)
    ensures
        res@ == loose_lines(edge_views(edges@)),
{
    let ghost all = edge_views(edges@);
    let mut lines = String::new();
    let mut i: usize = 0;
    assert(all.take(0) =~= Seq::empty());
    assert(lines@ =~= Seq::empty());
    while i < edges.len()
        invariant
            i <= edges@.len(),
            all == edge_views(edges@),
            lines@ == loose_lines(all.take(i as int)),
        decreases edges@.len() - i,
    {
        proof {
            assert(all.take(i + 1).drop_last() =~= all.take(i as int));
            assert(all.take(i + 1).last() == edges@[i as int]@);
        }
        let a = concat("Warning: dependency of ", edges[i].from.as_str());
        let b = concat(a.as_str(), " matches no emitted unit: ");
        let c = concat(b.as_str(), edges[i].to.as_str());
        let line = concat(c.as_str(), "\n");
        lines = concat(lines.as_str(), line.as_str());
        i += 1;
    }
    assert(all.take(i as int) =~= all);
    lines
}

/// What an examination of the graph comes to.
#[derive(Debug, PartialEq, Eq)]
pub struct GraphReport {
    /// What is said of it
    pub text: String,
    /// Why nothing is put out, where that is so
    pub error: Option<String>,
}

/// What is said of the graph: its cycles, the dependencies that match no project, and that no
/// dependency links two projects. Cycles have the last word where strictness is asked for.
pub open spec fn graph_text(projects: Seq<ProjectView>, cycles: Seq<Cycle>, strict: bool) -> Seq<char> {
    if cycles.len() > 0 && strict {
        report_text(cycles)
    } else {
        report_text(cycles) + loose_lines(loose_edges(projects, all_edges(projects))) + (if is_disconnected(projects) && !strict {
            "Warning: no dependency links two emitted units\n"@
        } else {
            Seq::empty()
        })
    }
}

/// Why nothing is put out: there are cycles, or no dependency links two projects, and strictness is
/// asked for.
pub open spec fn graph_error(projects: Seq<ProjectView>, cycles: Seq<Cycle>, strict: bool) -> Option<Seq<char>> {
    if !strict {
        None
    } else if cycles.len() > 0 {
        Some("Dependency cycles detected (use without --strict to generate output anyway)"@)
    } else if is_disconnected(projects) {
        Some("no dependency links two emitted units"@)
    } else {
        None
    }
}

/// Says what is wrong with the graph of the projects, given the cycles that were detected in it.
pub fn examine_graph(projects: &[Project], found: &CycleDetectionResult, strict: bool) -> (res: GraphReport)
    ensures
        res.text@ == graph_text(project_views(projects@), found.cycles@, strict),
        opt_text(res.error) == graph_error(project_views(projects@), found.cycles@, strict),
{
    let ghost views = project_views(projects@);
    let mut text = String::new();
    assert(text@ =~= Seq::empty());
    report_cycles(found, &mut text);
    assert(text@ =~= report_text(found.cycles@));
    if found.cycles.len() > 0 && strict {
        return GraphReport {
            text,
            error: Some("Dependency cycles detected (use without --strict to generate output anyway)".to_owned()),
        };
    }
    let loose = describe_loose(&unmatched_dependencies(projects));
    let said = concat(text.as_str(), loose.as_str());
    if !graph_is_disconnected(projects) {
        assert(said@ =~= graph_text(views, found.cycles@, strict));
        GraphReport { text: said, error: None }
    } else if strict {
        assert(said@ =~= graph_text(views, found.cycles@, strict));
        GraphReport { text: said, error: Some("no dependency links two emitted units".to_owned()) }
    } else {
        GraphReport { text: concat(said.as_str(), "Warning: no dependency links two emitted units\n"), error: None }
    }
}

/// The failures of an expansion, counted by what failed.
pub open spec fn failure_counts(report: EvalReport) -> Seq<char> {
    decimal(report.values_failures as nat) + " values, "@ + decimal(report.source_path_failures as nat)
        + " source paths, "@ + decimal(report.file_io_failures as nat) + " file reads, "@ + decimal(
        report.cycle_skipped as nat,
    ) + " cycles, "@ + decimal(report.remote_sources_skipped as nat) + " remote sources, "@ + decimal(
        report.missing_child_stack as nat,
    ) + " missing stack files, "@ + decimal(report.recursion_depth_exceeded as nat) + " stacks too deep"@
}

/// Why nothing is put out: something in the stack files could not be evaluated, and strictness is
/// asked for.
pub open spec fn evaluation_error(report: EvalReport, strict: bool) -> Option<Seq<char>> {
    if strict && report.sum() > 0 {
        Some("Stack files could not be evaluated: "@ + failure_counts(report))
    } else {
        None
    }
}

fn put_count(out: &mut String, n: usize, what: &str)
    ensures
        final(out)@ == old(out)@ + decimal(n as nat) + what@,
{
    out.append(decimal_text(n as u64).as_str());
    out.append(what);
}

/// Says why nothing is put out, where strictness is asked for and an expansion had failures.
pub fn examine_evaluation(report: &EvalReport, strict: bool) -> (res: Option<String>)
    ensures
        opt_text(res) == evaluation_error(*report, strict),
        res is Some <==> strict && report.sum() > 0,
{
    if !strict || report.is_empty() {
        return None;
    }
    let mut text = "Stack files could not be evaluated: ".to_owned();
    let ghost head = text@;
    put_count(&mut text, report.values_failures, " values, ");
    put_count(&mut text, report.source_path_failures, " source paths, ");
    put_count(&mut text, report.file_io_failures, " file reads, ");
    put_count(&mut text, report.cycle_skipped, " cycles, ");
    put_count(&mut text, report.remote_sources_skipped, " remote sources, ");
    put_count(&mut text, report.missing_child_stack, " missing stack files, ");
    put_count(&mut text, report.recursion_depth_exceeded, " stacks too deep");
    assert(text@ =~= head + failure_counts(*report));
    Some(text)
}

/// A graph is refused only where strictness is asked for, and never where it has neither a cycle nor
/// a dependency.
pub proof fn law_only_strictness_refuses(projects: Seq<ProjectView>, cycles: Seq<Cycle>, strict: bool)
    ensures
        graph_error(projects, cycles, false) is None,
        cycles.len() == 0 && all_edges(projects).len() == 0 ==> graph_error(projects, cycles, strict) is None,
        cycles.len() > 0 ==> graph_error(projects, cycles, true) is Some,
{
}

/// The list of the projects: each with its layer and the dependencies that it waits on.
pub open spec fn project_lines(projects: Seq<ProjectView>, all: Seq<ProjectView>) -> Seq<char>
    decreases projects.len(),
{
    if projects.len() == 0 {
        Seq::empty()
    } else {
        let p = projects.last();
        project_lines(projects.drop_last(), all) + (p.name + " (layer "@ + decimal(layers_of(all)[p.name] as nat) + "): "@
            + join_with(p.project_dependencies, ", "@) + "\n"@)
    }
}

/// Lists the projects: each with its layer and the dependencies that it waits on.
pub fn list_projects(projects: &[Project]) -> (res: String)
    requires
        projects@.len() <= u32::MAX,
    ensures
        res@ == project_lines(project_views(projects@), project_views(projects@)),
{
    let ghost all = project_views(projects@);
    let layers = compute_layers(projects);
    let mut lines = String::new();
    let mut i: usize = 0;
    assert(all.take(0) =~= Seq::empty());
    assert(lines@ =~= Seq::empty());
    while i < projects.len()
        invariant
            i <= projects@.len(),
            all == project_views(projects@),
            layers@ == layers_of(all),
            lines@ == project_lines(all.take(i as int), all),
        decreases projects@.len() - i,
    {
        let p = &projects[i];
        proof {
            assert(all.take(i + 1).drop_last() =~= all.take(i as int));
            assert(all.take(i + 1).last() == p@);
            assert(all[i as int] == p@);
            lemma_all_layered(all, i as int);
        }
        let layer = layer_of(&layers, p.name.as_str());
        let a = concat(p.name.as_str(), " (layer ");
        let b = concat(a.as_str(), decimal_text(layer as u64).as_str());
        let c = concat(b.as_str(), "): ");
        let d = concat(c.as_str(), join(&p.project_dependencies, ", ").as_str());
        let line = concat(d.as_str(), "\n");
        lines = concat(lines.as_str(), line.as_str());
        i += 1;
    }
    assert(all.take(i as int) =~= all);
    lines
}

// ---------------------------------------------------------------- configuration

/// The base directory of the output: the one that was asked for, or else the root.
pub fn output_base(base_dir: Option<String>, root: &str) -> (res: Option<String>)
    ensures
        opt_text(res) == Some(
            match base_dir {
                Some(b) => b@,
                None => root@,
            },
        ),
{
    match base_dir {
        Some(b) => Some(b),
        None => Some(root.to_owned()),
    }
}

} // verus!
