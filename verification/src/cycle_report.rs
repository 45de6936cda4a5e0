//! Human-readable reports on the cycles that were detected.

use crate::cycle::{Cycle, CycleDetectionResult, DependencyEdge, EdgeType};
use crate::text::{decimal_text, signed_decimal_text};
#[allow(unused_imports)]
use crate::text::{decimal, signed_decimal};
use vstd::prelude::*;

verus! {

// ------------------------------------------------------------------ the warning

/// One line per node of a cycle.
pub open spec fn node_lines(nodes: Seq<String>) -> Seq<char>
    decreases nodes.len(),
{
    if nodes.len() == 0 {
        Seq::empty()
    } else {
        node_lines(nodes.drop_last()) + ("  → "@ + nodes.last()@ + "\n"@)
    }
}

/// The paragraph on the cycle with number `k`, counting from 1.
pub open spec fn cycle_paragraph(k: nat, c: Cycle) -> Seq<char> {
    "Cycle #"@ + decimal(k) + ":\n"@ + node_lines(c.nodes@) + (if c.nodes@.len() == 0 {
        Seq::empty()
    } else {
        "  ↩ back to "@ + c.nodes@[0]@ + "\n\n"@
    })
}

/// The paragraphs on the cycles, numbered from 1.
pub open spec fn cycle_paragraphs(cycles: Seq<Cycle>) -> Seq<char>
    decreases cycles.len(),
{
    if cycles.len() == 0 {
        Seq::empty()
    } else {
        cycle_paragraphs(cycles.drop_last()) + cycle_paragraph(cycles.len(), cycles.last())
    }
}

/// The warning about the detected cycles; empty where there are none.
pub open spec fn report_text(cycles: Seq<Cycle>) -> Seq<char> {
    if cycles.len() == 0 {
        Seq::empty()
    } else {
        "⚠️  WARNING: Dependency cycles detected ("@ + decimal(cycles.len()) + " cycle"@ + (if cycles.len() == 1 {
            ""@
        } else {
            "s"@
        }) + " found)\n\n"@ + cycle_paragraphs(cycles)
    }
}

fn put_node_lines(out: &mut String, nodes: &Vec<String>)
    ensures
        final(out)@ == old(out)@ + node_lines(nodes@),
{
    let mut i: usize = 0;
    assert(out@ =~= old(out)@ + node_lines(nodes@.take(0)));
    while i < nodes.len()
        invariant
            i <= nodes@.len(),
            out@ == old(out)@ + node_lines(nodes@.take(i as int)),
        decreases nodes@.len() - i,
    {
        assert(nodes@.take(i + 1).drop_last() =~= nodes@.take(i as int));
        let ghost before = out@;
        out.append("  → ");
        out.append(nodes[i].as_str());
        out.append("\n");
        assert(out@ =~= before + ("  → "@ + nodes@[i as int]@ + "\n"@));
        assert(out@ =~= old(out)@ + (node_lines(nodes@.take(i as int)) + ("  → "@ + nodes@[i as int]@ + "\n"@)));
        i += 1;
    }
    assert(nodes@.take(i as int) =~= nodes@);
}

/// Appends the warning about the detected cycles to `out`, in human-readable form. Nothing is
/// appended where there are none.
pub fn report_cycles(result: &CycleDetectionResult, out: &mut String)
    ensures
        final(out)@ == old(out)@ + report_text(result.cycles@),
{
    let n: usize = result.cycles.len();
    if n == 0 {
        assert(out@ =~= old(out)@ + report_text(result.cycles@));
        return;
    }
    out.append("⚠️  WARNING: Dependency cycles detected (");
    out.append(decimal_text(n as u64).as_str());
    out.append(" cycle");
    out.append(if n == 1 {
        ""
    } else {
        "s"
    });
    out.append(" found)\n\n");
    let ghost head = out@;
    let mut i: usize = 0;
    assert(out@ =~= head + cycle_paragraphs(result.cycles@.take(0)));
    while i < n
        invariant
            n == result.cycles@.len(),
            i <= n,
            out@ == head + cycle_paragraphs(result.cycles@.take(i as int)),
        decreases n - i,
    {
        assert(result.cycles@.take(i + 1).drop_last() =~= result.cycles@.take(i as int));
        let cycle = &result.cycles[i];
        let ghost before = out@;
        out.append("Cycle #");
        out.append(decimal_text(i as u64 + 1).as_str());
        out.append(":\n");
        put_node_lines(out, &cycle.nodes);
        if cycle.nodes.len() > 0 {
            out.append("  ↩ back to ");
            out.append(cycle.nodes[0].as_str());
            out.append("\n\n");
        }
        assert(out@ =~= before + cycle_paragraph((i + 1) as nat, *cycle));
        assert(out@ =~= head + (cycle_paragraphs(result.cycles@.take(i as int)) + cycle_paragraph(
            (i + 1) as nat,
            *cycle,
        )));
        i += 1;
    }
    assert(result.cycles@.take(i as int) =~= result.cycles@);
    assert(out@ =~= old(out)@ + report_text(result.cycles@));
}

// ----------------------------------------------------------------- the analysis

/// How many of the edges go to `t`.
pub open spec fn in_degree(edges: Seq<DependencyEdge>, t: Seq<char>) -> nat
    decreases edges.len(),
{
    if edges.len() == 0 {
        0
    } else {
        in_degree(edges.drop_last(), t) + (if edges.last().to@ == t {
            1nat
        } else {
            0
        })
    }
}

/// How many of the edges come from `t`.
pub open spec fn out_degree(edges: Seq<DependencyEdge>, t: Seq<char>) -> nat
    decreases edges.len(),
{
    if edges.len() == 0 {
        0
    } else {
        out_degree(edges.drop_last(), t) + (if edges.last().from@ == t {
            1nat
        } else {
            0
        })
    }
}

/// The score of an edge: the lower, the better it can be broken. Weak kinds of edges come first,
/// then those to nodes that much else depends on; an edge from a node with few edges comes last.
pub open spec fn break_score(edges: Seq<DependencyEdge>, e: DependencyEdge) -> int {
    let target = in_degree(edges, e.to@) as int;
    let source = out_degree(edges, e.from@) as int;
    e.edge_type.spec_weight() * 10 - (if target < 10 {
        target
    } else {
        10
    }) * 5 + (if source <= 2 {
        30int
    } else if source <= 5 {
        15
    } else {
        0
    })
}

/// `sorted` with `e` put behind the edges that score no more than it.
pub open spec fn insert_by_score(
    edges: Seq<DependencyEdge>,
    sorted: Seq<DependencyEdge>,
    e: DependencyEdge,
) -> Seq<DependencyEdge>
    decreases sorted.len(),
{
    if sorted.len() == 0 || break_score(edges, sorted.last()) <= break_score(edges, e) {
        sorted.push(e)
    } else {
        insert_by_score(edges, sorted.drop_last(), e).push(sorted.last())
    }
}

/// `list` in the order of the scores; edges with one score stay in their order.
pub open spec fn by_score(edges: Seq<DependencyEdge>, list: Seq<DependencyEdge>) -> Seq<DependencyEdge>
    decreases list.len(),
{
    if list.len() == 0 {
        Seq::empty()
    } else {
        insert_by_score(edges, by_score(edges, list.drop_last()), list.last())
    }
}

/// The name of an edge type.
pub open spec fn kind_name(t: EdgeType) -> Seq<char> {
    match t {
        EdgeType::Dependency => "Dependency"@,
        EdgeType::Include => "Include"@,
        EdgeType::TerraformSource => "TerraformSource"@,
        EdgeType::ReadConfig => "ReadConfig"@,
        EdgeType::FileRead => "FileRead"@,
    }
}

/// The line of the node with number `k` on a cycle's path, with its degrees.
pub open spec fn path_line(edges: Seq<DependencyEdge>, k: nat, t: Seq<char>) -> Seq<char> {
    "  "@ + decimal(k) + ". "@ + t + " (in-degree: "@ + decimal(in_degree(edges, t)) + ", out-degree: "@ + decimal(
        out_degree(edges, t),
    ) + ")\n"@
}

/// The numbered lines of a cycle's path, with the degree of each node.
pub open spec fn path_lines(edges: Seq<DependencyEdge>, nodes: Seq<String>) -> Seq<char>
    decreases nodes.len(),
{
    if nodes.len() == 0 {
        Seq::empty()
    } else {
        path_lines(edges, nodes.drop_last()) + path_line(edges, nodes.len(), nodes.last()@)
    }
}

/// The line of an edge of a cycle, which may be suggested for breaking.
pub open spec fn edge_line(edges: Seq<DependencyEdge>, e: DependencyEdge, suggested: bool) -> Seq<char> {
    "  "@ + e.from@ + " → "@ + e.to@ + " | "@ + kind_name(e.edge_type) + " | score: "@ + signed_decimal(
        break_score(edges, e),
    ) + (if suggested {
        " → SUGGESTED BREAK"@
    } else {
        ""@
    }) + "\n"@
}

/// The lines of a cycle's edges; the first one is suggested for breaking.
pub open spec fn edge_lines(edges: Seq<DependencyEdge>, list: Seq<DependencyEdge>) -> Seq<char>
    decreases list.len(),
{
    if list.len() == 0 {
        Seq::empty()
    } else {
        edge_lines(edges, list.drop_last()) + edge_line(edges, list.last(), list.len() == 1)
    }
}

/// The section on the cycle with number `k`, counting from 1.
pub open spec fn cycle_section(edges: Seq<DependencyEdge>, k: nat, c: Cycle) -> Seq<char> {
    "━━━━━━━━━━━━━━━━━━━━━━━━━━━━━━━━━━━━━━━━\nCycle #"@ + decimal(k) + " ("@ + decimal(c.nodes@.len())
        + " projects)\n\nPath:\n"@ + path_lines(edges, c.nodes@) + "\nEdges (sorted by break priority):\n"@ + edge_lines(
        edges,
        by_score(edges, c.edges@),
    ) + "\n"@
}

pub open spec fn cycle_sections(edges: Seq<DependencyEdge>, cycles: Seq<Cycle>) -> Seq<char>
    decreases cycles.len(),
{
    if cycles.len() == 0 {
        Seq::empty()
    } else {
        cycle_sections(edges, cycles.drop_last()) + cycle_section(edges, cycles.len(), cycles.last())
    }
}

/// The analysis of the detected cycles.
pub open spec fn analysis_text(edges: Seq<DependencyEdge>, cycles: Seq<Cycle>, affected: nat) -> Seq<char> {
    if cycles.len() == 0 {
        "✓ No cycles detected\n"@
    } else {
        "🔍 Cycle Analysis\n\nFound "@ + decimal(cycles.len()) + " cycle(s) affecting "@ + decimal(affected)
            + " project(s)\n\n"@ + cycle_sections(edges, cycles)
    }
}

fn count_in(edges: &[DependencyEdge], t: &String) -> (res: usize)
    ensures
        res == in_degree(edges@, t@),
        res <= edges@.len(),
{
    let mut n: usize = 0;
    let mut i: usize = 0;
    while i < edges.len()
        invariant
            i <= edges@.len(),
            n <= i,
            n == in_degree(edges@.take(i as int), t@),
        decreases edges@.len() - i,
    {
        assert(edges@.take(i + 1).drop_last() =~= edges@.take(i as int));
        if edges[i].to == *t {
            n += 1;
        }
        i += 1;
    }
    assert(edges@.take(i as int) =~= edges@);
    n
}

fn count_out(edges: &[DependencyEdge], t: &String) -> (res: usize)
    ensures
        res == out_degree(edges@, t@),
        res <= edges@.len(),
{
    let mut n: usize = 0;
    let mut i: usize = 0;
    while i < edges.len()
        invariant
            i <= edges@.len(),
            n <= i,
            n == out_degree(edges@.take(i as int), t@),
        decreases edges@.len() - i,
    {
        assert(edges@.take(i + 1).drop_last() =~= edges@.take(i as int));
        if edges[i].from == *t {
            n += 1;
        }
        i += 1;
    }
    assert(edges@.take(i as int) =~= edges@);
    n
}

fn score_edge(edges: &[DependencyEdge], e: &DependencyEdge) -> (res: i32)
    ensures
        res == break_score(edges@, *e),
{
    let target: usize = count_in(edges, &e.to);
    let source: usize = count_out(edges, &e.from);
    let capped: i32 = if target < 10 {
        target as i32
    } else {
        10
    };
    let bonus: i32 = if source <= 2 {
        30
    } else if source <= 5 {
        15
    } else {
        0
    };
    e.edge_type.weight() * 10 - capped * 5 + bonus
}

proof fn lemma_insert_by_score(
    edges: Seq<DependencyEdge>,
    sorted: Seq<DependencyEdge>,
    e: DependencyEdge,
    k: int,
)
    requires
        0 <= k <= sorted.len(),
        forall|j: int| k <= j < sorted.len() ==> break_score(edges, e) < break_score(edges, #[trigger] sorted[j]),
        k > 0 ==> break_score(edges, sorted[k - 1]) <= break_score(edges, e),
    ensures
        insert_by_score(edges, sorted, e) == sorted.insert(k, e),
    decreases sorted.len(),
{
    if k == sorted.len() {
        assert(sorted.insert(k, e) =~= sorted.push(e));
    } else {
        let rest = sorted.drop_last();
        assert(break_score(edges, e) < break_score(edges, sorted[sorted.len() - 1]));
        lemma_insert_by_score(edges, rest, e, k);
        assert(sorted.insert(k, e) =~= rest.insert(k, e).push(sorted.last()));
    }
}

fn sort_by_score(edges: &[DependencyEdge], list: &Vec<DependencyEdge>) -> (res: Vec<(i32, DependencyEdge)>)
    ensures
        res@.len() == list@.len(),
        res@.map_values(|p: (i32, DependencyEdge)| p.1) == by_score(edges@, list@),
        forall|i: int| 0 <= i < res@.len() ==> (#[trigger] res@[i]).0 == break_score(edges@, res@[i].1),
{
    let mut out: Vec<(i32, DependencyEdge)> = Vec::new();
    let mut i: usize = 0;
    assert(list@.take(0) =~= Seq::<DependencyEdge>::empty());
    assert(out@.map_values(|p: (i32, DependencyEdge)| p.1) =~= by_score(edges@, list@.take(0)));
    while i < list.len()
        invariant
            i <= list@.len(),
            out@.len() == i,
            out@.map_values(|p: (i32, DependencyEdge)| p.1) == by_score(edges@, list@.take(i as int)),
            forall|j: int| 0 <= j < out@.len() ==> (#[trigger] out@[j]).0 == break_score(edges@, out@[j].1),
        decreases list@.len() - i,
    {
        let e = list[i].clone();
        let score: i32 = score_edge(edges, &e);
        let ghost sorted = out@.map_values(|p: (i32, DependencyEdge)| p.1);
        let ghost before = out@;
        let mut k: usize = out.len();
        while k > 0 && out[k - 1].0 > score
            invariant
                k <= out@.len(),
                out@ == before,
                forall|j: int| 0 <= j < out@.len() ==> (#[trigger] out@[j]).0 == break_score(edges@, out@[j].1),
                forall|j: int| k <= j < out@.len() ==> score < (#[trigger] out@[j]).0,
            decreases k,
        {
            k -= 1;
        }
        proof {
            assert(list@.take(i + 1).drop_last() =~= list@.take(i as int));
            assert forall|j: int| k <= j < sorted.len() implies break_score(edges@, e) < break_score(
                edges@,
                #[trigger] sorted[j],
            ) by {
                assert(before[j].1 == sorted[j]);
            }
            if k > 0 {
                assert(before[k - 1].1 == sorted[k - 1]);
            }
            lemma_insert_by_score(edges@, sorted, e, k as int);
        }
        out.insert(k, (score, e));
        assert(out@.map_values(|p: (i32, DependencyEdge)| p.1) =~= sorted.insert(k as int, e));
        i += 1;
    }
    assert(list@.take(i as int) =~= list@);
    out
}

fn put_kind(out: &mut String, t: EdgeType)
    ensures
        final(out)@ == old(out)@ + kind_name(t),
{
    match t {
        EdgeType::Dependency => out.append("Dependency"),
        EdgeType::Include => out.append("Include"),
        EdgeType::TerraformSource => out.append("TerraformSource"),
        EdgeType::ReadConfig => out.append("ReadConfig"),
        EdgeType::FileRead => out.append("FileRead"),
    }
}

fn put_path_line(out: &mut String, edges: &[DependencyEdge], k: u64, node: &String)
    ensures
        final(out)@ == old(out)@ + path_line(edges@, k as nat, node@),
{
    out.append("  ");
    out.append(decimal_text(k).as_str());
    out.append(". ");
    out.append(node.as_str());
    out.append(" (in-degree: ");
    out.append(decimal_text(count_in(edges, node) as u64).as_str());
    out.append(", out-degree: ");
    out.append(decimal_text(count_out(edges, node) as u64).as_str());
    out.append(")\n");
    assert(out@ =~= old(out)@ + path_line(edges@, k as nat, node@));
}

fn put_path_lines(out: &mut String, edges: &[DependencyEdge], nodes: &Vec<String>)
    ensures
        final(out)@ == old(out)@ + path_lines(edges@, nodes@),
{
    let mut i: usize = 0;
    assert(out@ =~= old(out)@ + path_lines(edges@, nodes@.take(0)));
    while i < nodes.len()
        invariant
            i <= nodes@.len(),
            out@ == old(out)@ + path_lines(edges@, nodes@.take(i as int)),
        decreases nodes@.len() - i,
    {
        assert(nodes@.take(i + 1).drop_last() =~= nodes@.take(i as int));
        put_path_line(out, edges, i as u64 + 1, &nodes[i]);
        assert(out@ =~= old(out)@ + path_lines(edges@, nodes@.take(i + 1)));
        i += 1;
    }
    assert(nodes@.take(i as int) =~= nodes@);
}

fn put_edge_line(out: &mut String, edges: &[DependencyEdge], e: &DependencyEdge, score: i32, suggested: bool)
    requires
        score == break_score(edges@, *e),
    ensures
        final(out)@ == old(out)@ + edge_line(edges@, *e, suggested),
{
    out.append("  ");
    out.append(e.from.as_str());
    out.append(" → ");
    out.append(e.to.as_str());
    out.append(" | ");
    put_kind(out, e.edge_type);
    out.append(" | score: ");
    out.append(signed_decimal_text(score as i64).as_str());
    out.append(if suggested {
        " → SUGGESTED BREAK"
    } else {
        ""
    });
    out.append("\n");
    assert(out@ =~= old(out)@ + edge_line(edges@, *e, suggested));
}

fn put_edge_lines(out: &mut String, edges: &[DependencyEdge], list: &Vec<(i32, DependencyEdge)>)
    requires
        forall|i: int| 0 <= i < list@.len() ==> (#[trigger] list@[i]).0 == break_score(edges@, list@[i].1),
    ensures
        final(out)@ == old(out)@ + edge_lines(edges@, list@.map_values(|p: (i32, DependencyEdge)| p.1)),
{
    let ghost all = list@.map_values(|p: (i32, DependencyEdge)| p.1);
    let mut i: usize = 0;
    assert(all.take(0) =~= Seq::<DependencyEdge>::empty());
    assert(out@ =~= old(out)@ + edge_lines(edges@, all.take(0)));
    while i < list.len()
        invariant
            i <= list@.len(),
            all == list@.map_values(|p: (i32, DependencyEdge)| p.1),
            forall|i: int| 0 <= i < list@.len() ==> (#[trigger] list@[i]).0 == break_score(edges@, list@[i].1),
            out@ == old(out)@ + edge_lines(edges@, all.take(i as int)),
        decreases list@.len() - i,
    {
        assert(all.take(i + 1).drop_last() =~= all.take(i as int));
        assert(list@[i as int].0 == break_score(edges@, list@[i as int].1));
        put_edge_line(out, edges, &list[i].1, list[i].0, i == 0);
        assert(out@ =~= old(out)@ + edge_lines(edges@, all.take(i + 1)));
        i += 1;
    }
    assert(all.take(i as int) =~= all);
}

fn put_section(out: &mut String, edges: &[DependencyEdge], k: u64, cycle: &Cycle)
    ensures
        final(out)@ == old(out)@ + cycle_section(edges@, k as nat, *cycle),
{
    out.append("━━━━━━━━━━━━━━━━━━━━━━━━━━━━━━━━━━━━━━━━\nCycle #");
    out.append(decimal_text(k).as_str());
    out.append(" (");
    out.append(decimal_text(cycle.nodes.len() as u64).as_str());
    out.append(" projects)\n\nPath:\n");
    put_path_lines(out, edges, &cycle.nodes);
    let sorted = sort_by_score(edges, &cycle.edges);
    out.append("\nEdges (sorted by break priority):\n");
    put_edge_lines(out, edges, &sorted);
    out.append("\n");
    assert(out@ =~= old(out)@ + cycle_section(edges@, k as nat, *cycle));
}

/// Appends a detailed analysis of the detected cycles to `out`: the path of each cycle with the
/// degrees of its nodes, and its edges in the order in which they are best broken.
pub fn analyze_cycles(result: &CycleDetectionResult, edges: &[DependencyEdge], out: &mut String)
    ensures
        final(out)@ == old(out)@ + analysis_text(edges@, result.cycles@, result.in_cycle@.len()),
{
    let n: usize = result.cycles.len();
    if n == 0 {
        out.append("✓ No cycles detected\n");
        return;
    }
    out.append("🔍 Cycle Analysis\n\nFound ");
    out.append(decimal_text(n as u64).as_str());
    out.append(" cycle(s) affecting ");
    out.append(decimal_text(result.in_cycle.len() as u64).as_str());
    out.append(" project(s)\n\n");
    let ghost head = out@;
    let mut i: usize = 0;
    assert(out@ =~= head + cycle_sections(edges@, result.cycles@.take(0)));
    while i < n
        invariant
            n == result.cycles@.len(),
            i <= n,
            out@ == head + cycle_sections(edges@, result.cycles@.take(i as int)),
        decreases n - i,
    {
        assert(result.cycles@.take(i + 1).drop_last() =~= result.cycles@.take(i as int));
        let ghost before = out@;
        put_section(out, edges, i as u64 + 1, &result.cycles[i]);
        assert(out@ =~= head + (cycle_sections(edges@, result.cycles@.take(i as int)) + cycle_section(
            edges@,
            (i + 1) as nat,
            result.cycles@[i as int],
        )));
        i += 1;
    }
    assert(result.cycles@.take(i as int) =~= result.cycles@);
    assert(out@ =~= old(out)@ + analysis_text(edges@, result.cycles@, result.in_cycle@.len()));
}

// ------------------------------------------------------------------------- laws

/// The edges of the analysis are those of the cycle, and each scores no more than the next.
pub proof fn law_edges_sorted_by_score(edges: Seq<DependencyEdge>, list: Seq<DependencyEdge>)
    ensures
        by_score(edges, list).to_multiset() == list.to_multiset(),
        forall|i: int, j: int|
            0 <= i <= j < list.len() ==> break_score(edges, #[trigger] by_score(edges, list)[i]) <= break_score(
                edges,
                #[trigger] by_score(edges, list)[j],
            ),
    decreases list.len(),
{
    if list.len() > 0 {
        let rest = list.drop_last();
        let e = list.last();
        law_edges_sorted_by_score(edges, rest);
        let sorted = by_score(edges, rest);
        rest.to_multiset_ensures();
        sorted.to_multiset_ensures();
        assert(list =~= rest.push(e));
        lemma_insert_sorted(edges, sorted, e);
    } else {
        assert(by_score(edges, list) =~= list);
    }
}

proof fn lemma_insert_sorted(edges: Seq<DependencyEdge>, sorted: Seq<DependencyEdge>, e: DependencyEdge)
    requires
        forall|i: int, j: int|
            0 <= i <= j < sorted.len() ==> break_score(edges, #[trigger] sorted[i]) <= break_score(
                edges,
                #[trigger] sorted[j],
            ),
    ensures
        insert_by_score(edges, sorted, e).len() == sorted.len() + 1,
        insert_by_score(edges, sorted, e).to_multiset() == sorted.to_multiset().insert(e),
        forall|i: int, j: int|
            0 <= i <= j < sorted.len() + 1 ==> break_score(
                edges,
                #[trigger] insert_by_score(edges, sorted, e)[i],
            ) <= break_score(edges, #[trigger] insert_by_score(edges, sorted, e)[j]),
        forall|i: int|
            0 <= i < sorted.len() + 1 ==> (#[trigger] insert_by_score(edges, sorted, e)[i] == e || sorted.contains(
                insert_by_score(edges, sorted, e)[i],
            )),
    decreases sorted.len(),
{
    sorted.to_multiset_ensures();
    if sorted.len() > 0 && break_score(edges, sorted.last()) > break_score(edges, e) {
        let rest = sorted.drop_last();
        lemma_insert_sorted(edges, rest, e);
        let mid = insert_by_score(edges, rest, e);
        mid.to_multiset_ensures();
        rest.to_multiset_ensures();
        assert(sorted =~= rest.push(sorted.last()));
        assert(insert_by_score(edges, sorted, e).to_multiset() =~= sorted.to_multiset().insert(e));
        let res = insert_by_score(edges, sorted, e);
        assert forall|i: int| 0 <= i < sorted.len() + 1 implies (#[trigger] res[i] == e || sorted.contains(res[i])) by {
            if i < mid.len() {
                assert(res[i] == mid[i]);
                if mid[i] != e {
                    let k = choose|k: int| 0 <= k < rest.len() && rest[k] == mid[i];
                    assert(sorted[k] == res[i]);
                }
            } else {
                assert(sorted[sorted.len() - 1] == res[i]);
            }
        }
        assert forall|i: int, j: int| 0 <= i <= j < sorted.len() + 1 implies break_score(edges, #[trigger] res[i])
            <= break_score(edges, #[trigger] res[j]) by {
            if j < mid.len() {
                assert(res[i] == mid[i] && res[j] == mid[j]);
            } else {
                assert(res[j] == sorted[sorted.len() - 1]);
                if res[i] != e {
                    let k = choose|k: int| 0 <= k < sorted.len() && sorted[k] == res[i];
                    assert(break_score(edges, sorted[k]) <= break_score(edges, sorted[sorted.len() - 1]));
                }
            }
        }
    } else {
        let res = insert_by_score(edges, sorted, e);
        assert forall|i: int, j: int| 0 <= i <= j < sorted.len() + 1 implies break_score(edges, #[trigger] res[i])
            <= break_score(edges, #[trigger] res[j]) by {
            if i < sorted.len() {
                assert(break_score(edges, sorted[i]) <= break_score(edges, sorted[sorted.len() - 1]));
            }
        }
    }
}

} // verus!
