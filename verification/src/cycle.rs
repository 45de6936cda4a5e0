//! Cycle detection for project dependency graphs.
//!
//! Kahn's algorithm sorts the projects topologically; what it leaves over lies on a cycle or is
//! reached from one. A search from each of those tells which of the two it is: the former are in
//! cycles, and a depth-first search extracts cycles from them; the latter are sorted in turn.

use crate::graph::{find_cycle_from, kahn_order, returns_to, successors};
#[allow(unused_imports)]
use crate::graph::{
    follows_cycle, has_source_in, is_closed_walk, is_cycle, is_walk, leads_to_cycle, lemma_leads_to_numbers,
    lemma_named_arc, lemma_named_cycle, lemma_named_on_cycle, lemma_named_reaches, lemma_ordered_not_after_cycle,
    lemma_stuck_follows_cycle, named, named_nodes, on_cycle, reaches, sources_first, steps_on, targets, touches, within,
};
use crate::names::NameSet;
use crate::text::texts;
use vstd::prelude::*;

verus! {

/// A dependency edge in the project graph: `from` depends on `to`.
#[derive(Debug, PartialEq, Eq)]
pub struct DependencyEdge {
    pub from: String,
    pub to: String,
    pub edge_type: EdgeType,
}

/// What a dependency edge holds.
pub struct EdgeView {
    pub from: Seq<char>,
    pub to: Seq<char>,
    pub edge_type: EdgeType,
}

impl View for DependencyEdge {
    type V = EdgeView;

    open spec fn view(&self) -> EdgeView {
        EdgeView { from: self.from@, to: self.to@, edge_type: self.edge_type }
    }
}

impl Clone for DependencyEdge {
    fn clone(&self) -> (res: Self)
        ensures
            res == *self,
    {
        DependencyEdge { from: self.from.clone(), to: self.to.clone(), edge_type: self.edge_type }
    }
}

/// Edge types with weights for cycle breaking (lower = break first).
#[derive(Debug, Clone, Copy, PartialEq, Eq, Structural)]
pub enum EdgeType {
    /// dependency block (config_path)
    Dependency,
    /// include block
    Include,
    /// terraform.source (local)
    TerraformSource,
    /// read_terragrunt_config()
    ReadConfig,
    /// file(), sops_decrypt_file()
    FileRead,
}

impl EdgeType {
    pub open spec fn spec_weight(&self) -> i32 {
        match self {
            EdgeType::ReadConfig => 2,
            EdgeType::Include => 3,
            EdgeType::FileRead => 4,
            EdgeType::TerraformSource => 5,
            EdgeType::Dependency => 8,
        }
    }

    /// Weight for cycle breaking score (lower = safer to break).
    pub fn weight(&self) -> (res: i32)
        ensures
            res == self.spec_weight(),
    {
        match self {
            EdgeType::ReadConfig => 2,
            EdgeType::Include => 3,
            EdgeType::FileRead => 4,
            EdgeType::TerraformSource => 5,
            EdgeType::Dependency => 8,
        }
    }
}

/// A cycle in the dependency graph.
#[derive(Debug, Clone, PartialEq, Eq)]
pub struct Cycle {
    /// Projects forming the cycle (last connects back to first)
    pub nodes: Vec<String>,
    /// Edges in the cycle
    pub edges: Vec<DependencyEdge>,
}

/// Result of cycle detection.
pub struct CycleDetectionResult {
    /// All detected cycles
    pub cycles: Vec<Cycle>,
    /// Projects in valid topological order (only those not in cycles)
    pub ordered: Vec<String>,
    /// Projects that are part of cycles (these cannot be ordered)
    pub in_cycle: NameSet,
}

/// The arcs of the graph: from each project to the one it depends on.
pub open spec fn arcs_of(edges: Seq<DependencyEdge>) -> Seq<(Seq<char>, Seq<char>)> {
    edges.map_values(|e: DependencyEdge| (e.from@, e.to@))
}

/// The edges whose two ends are among `nodes`, in order.
pub open spec fn inside(edges: Seq<DependencyEdge>, nodes: Seq<Seq<char>>) -> Seq<DependencyEdge>
    decreases edges.len(),
{
    if edges.len() == 0 {
        Seq::empty()
    } else {
        let before = inside(edges.drop_last(), nodes);
        if nodes.contains(edges.last().from@) && nodes.contains(edges.last().to@) {
            before.push(edges.last())
        } else {
            before
        }
    }
}

/// `e` is the first of `edges` that goes from `from` to `to`.
pub open spec fn is_first_edge(edges: Seq<DependencyEdge>, from: Seq<char>, to: Seq<char>, e: DependencyEdge) -> bool {
    exists|k: int|
        0 <= k < edges.len() && edges[k]@ == e@ && e.from@ == from && e.to@ == to && forall|j: int|
            0 <= j < k ==> !((#[trigger] edges[j]).from@ == from && edges[j].to@ == to)
}

/// The nodes of `c` form a cycle, and its edges are the first ones that join each node to the
/// next, and the last to the first.
pub open spec fn is_reported_cycle(edges: Seq<DependencyEdge>, c: Cycle) -> bool {
    let nodes = texts(c.nodes@);
    &&& is_cycle(arcs_of(edges), nodes)
    &&& c.edges@.len() == nodes.len()
    &&& forall|i: int|
        0 <= i < nodes.len() ==> is_first_edge(
            edges,
            nodes[i],
            nodes[if i + 1 < nodes.len() {
                i + 1
            } else {
                0
            }],
            #[trigger] c.edges@[i],
        )
}

/// From `t`, the nodes of one of the cycles can be reached.
pub open spec fn reaches_one(edges: Seq<DependencyEdge>, t: Seq<char>, cycles: Seq<Cycle>) -> bool {
    exists|k: int| 0 <= k < cycles.len() && reaches(arcs_of(edges), t, (#[trigger] cycles[k]).nodes@[0]@)
}

/// Each cycle was found from a node of its own, which is not on an earlier cycle.
pub open spec fn found_from(
    edges: Seq<DependencyEdge>,
    nodes: Seq<Seq<char>>,
    cycles: Seq<Cycle>,
    starts: Seq<Seq<char>>,
) -> bool {
    &&& starts.len() == cycles.len()
    &&& starts.no_duplicates()
    &&& forall|k: int|
        0 <= k < starts.len() ==> nodes.contains(#[trigger] starts[k]) && reaches(
            arcs_of(edges),
            starts[k],
            cycles[k].nodes@[0]@,
        )
    &&& forall|k: int, j: int|
        0 <= j < k < starts.len() ==> !texts((#[trigger] cycles[j]).nodes@).contains(#[trigger] starts[k])
}

proof fn lemma_inside_arc(edges: Seq<DependencyEdge>, nodes: Seq<Seq<char>>, u: Seq<char>, v: Seq<char>)
    ensures
        arcs_of(inside(edges, nodes)).contains((u, v)) <==> arcs_of(edges).contains((u, v)) && nodes.contains(u)
            && nodes.contains(v),
    decreases edges.len(),
{
    if edges.len() > 0 {
        let rest = edges.drop_last();
        lemma_inside_arc(rest, nodes, u, v);
        let e = edges.last();
        assert(arcs_of(edges) =~= arcs_of(rest).push((e.from@, e.to@)));
        let a = arcs_of(rest);
        assert(a.push((e.from@, e.to@)).contains((u, v)) <==> a.contains((u, v)) || (u, v) == (e.from@, e.to@)) by {
            lemma_push_contains(a, (e.from@, e.to@), (u, v));
        }
        let before = inside(rest, nodes);
        if nodes.contains(e.from@) && nodes.contains(e.to@) {
            assert(arcs_of(before.push(e)) =~= arcs_of(before).push((e.from@, e.to@)));
            lemma_push_contains(arcs_of(before), (e.from@, e.to@), (u, v));
        }
    }
}

proof fn lemma_push_contains<A>(s: Seq<A>, a: A, b: A)
    ensures
        s.push(a).contains(b) <==> s.contains(b) || a == b,
{
    assert(s.push(a)[s.len() as int] == a);
    if s.contains(b) {
        let i = choose|i: int| 0 <= i < s.len() && s[i] == b;
        assert(s.push(a)[i] == b);
    }
    if s.push(a).contains(b) {
        let i = choose|i: int| 0 <= i < s.push(a).len() && s.push(a)[i] == b;
        if i < s.len() {
            assert(s[i] == b);
        }
    }
}

/// The edges whose two ends are among `nodes`, as edges and as pairs of positions in `nodes`.
fn edges_inside(edges: &[DependencyEdge], nodes: &NameSet) -> (res: (Vec<DependencyEdge>, Vec<(usize, usize)>))
    ensures
        res.0@ == inside(edges@, nodes@),
        within(nodes@.len(), res.1@),
        named(nodes@, res.1@) == arcs_of(res.0@),
{
    let mut kept: Vec<DependencyEdge> = Vec::new();
    let mut arcs: Vec<(usize, usize)> = Vec::new();
    let mut i: usize = 0;
    while i < edges.len()
        invariant
            i <= edges@.len(),
            kept@ == inside(edges@.take(i as int), nodes@),
            within(nodes@.len(), arcs@),
            named(nodes@, arcs@) == arcs_of(kept@),
        decreases edges@.len() - i,
    {
        assert(edges@.take(i + 1).drop_last() =~= edges@.take(i as int));
        assert(edges@.take(i + 1).last() == edges@[i as int]);
        let from = nodes.find(edges[i].from.as_str());
        let to = nodes.find(edges[i].to.as_str());
        match (from, to) {
            (Some(u), Some(v)) => {
                let ghost kept0 = kept@;
                let ghost arcs0 = arcs@;
                kept.push(edges[i].clone());
                arcs.push((u, v));
                assert(nodes@.contains(edges@[i as int].from@));
                assert(nodes@.contains(edges@[i as int].to@));
                assert(arcs_of(kept@) =~= arcs_of(kept0).push((edges@[i as int].from@, edges@[i as int].to@)));
                assert(named(nodes@, arcs@) =~= named(nodes@, arcs0).push((nodes@[u as int], nodes@[v as int])));
            },
            _ => {},
        }
        i += 1;
    }
    assert(edges@.take(i as int) =~= edges@);
    (kept, arcs)
}

/// The first edge from `from` to `to`.
fn first_edge(edges: &Vec<DependencyEdge>, from: &String, to: &String) -> (res: DependencyEdge)
    requires
        arcs_of(edges@).contains((from@, to@)),
    ensures
        is_first_edge(edges@, from@, to@, res),
{
    let n: usize = edges.len();
    let mut i: usize = 0;
    proof {
        let a = arcs_of(edges@);
        let k = choose|k: int| 0 <= k < a.len() && a[k] == (from@, to@);
        assert(edges@[k].from@ == from@ && edges@[k].to@ == to@);
    }
    while !(edges[i].from == *from && edges[i].to == *to)
        invariant
            i < n,
            n == edges@.len(),
            exists|k: int| i <= k < n && (#[trigger] edges@[k]).from@ == from@ && edges@[k].to@ == to@,
            forall|j: int| 0 <= j < i ==> !((#[trigger] edges@[j]).from@ == from@ && edges@[j].to@ == to@),
        decreases n - i,
    {
        i += 1;
    }
    edges[i].clone()
}

/// The cycle over the nodes at the positions `path`, with its edges.
fn make_cycle(
    path: &Vec<usize>,
    nodes: &NameSet,
    edges: &Vec<DependencyEdge>,
    arcs: &Vec<(usize, usize)>,
) -> (res: Cycle)
    requires
        within(nodes@.len(), arcs@),
        named(nodes@, arcs@) == arcs_of(edges@),
        is_cycle(arcs@, path@),
    ensures
        texts(res.nodes@) == named_nodes(nodes@, path@),
        is_reported_cycle(edges@, res),
{
    let mut names: Vec<String> = Vec::new();
    let count: usize = nodes.len();
    proof {
        lemma_named_cycle(nodes@, arcs@, path@);
    }
    let mut i: usize = 0;
    while i < path.len()
        invariant
            i <= path@.len(),
            forall|k: int| 0 <= k < path@.len() ==> #[trigger] path@[k] < nodes@.len(),
            texts(names@) == named_nodes(nodes@, path@.take(i as int)),
        decreases path@.len() - i,
    {
        let ghost before = names@;
        names.push(nodes.name(path[i]).clone());
        i += 1;
        assert(texts(names@) =~= texts(before).push(nodes@[path@[i - 1] as int]));
        assert(named_nodes(nodes@, path@.take(i as int)) =~= named_nodes(nodes@, path@.take(i - 1)).push(
            nodes@[path@[i - 1] as int],
        ));
    }
    assert(path@.take(i as int) =~= path@);
    let ghost all = texts(names@);
    let n: usize = names.len();
    let mut list: Vec<DependencyEdge> = Vec::new();
    let mut j: usize = 0;
    while j < n
        invariant
            n == names@.len(),
            j <= n,
            all == texts(names@),
            is_cycle(arcs_of(edges@), all),
            list@.len() == j,
            forall|k: int|
                0 <= k < j ==> is_first_edge(
                    edges@,
                    all[k],
                    all[if k + 1 < all.len() {
                        k + 1
                    } else {
                        0
                    }],
                    #[trigger] list@[k],
                ),
        decreases n - j,
    {
        let after: usize = if j + 1 < n {
            j + 1
        } else {
            0
        };
        proof {
            if j + 1 < n {
                assert(steps_on(arcs_of(edges@), all, j as int));
            } else {
                assert(all.last() == all[j as int]);
            }
            assert(arcs_of(edges@).contains((all[j as int], all[after as int])));
        }
        let e = first_edge(edges, &names[j], &names[after]);
        list.push(e);
        j += 1;
    }
    Cycle { nodes: names, edges: list }
}

/// Extracts cycles from nodes that cannot be ordered. From every such node that leads to a cycle,
/// one of the cycles that come back can be reached; which one depends on the order of the nodes and
/// of the edges.
fn find_cycles(unordered: &NameSet, edges: &[DependencyEdge]) -> (cycles: Vec<Cycle>)
    ensures
        forall|k: int|
            0 <= k < cycles@.len() ==> is_reported_cycle(inside(edges@, unordered@), #[trigger] cycles@[k]),
        forall|t: Seq<char>| #[trigger]
            unordered@.contains(t) && leads_to_cycle(arcs_of(inside(edges@, unordered@)), t) ==> reaches_one(
                inside(edges@, unordered@),
                t,
                cycles@,
            ),
        exists|starts: Seq<Seq<char>>|
            found_from(inside(edges@, unordered@), unordered@, cycles@, starts),
{
    let (inner, arcs) = edges_inside(edges, unordered);
    let n: usize = unordered.len();
    let next = successors(n, &arcs);
    let mut cycles: Vec<Cycle> = Vec::new();
    let mut visited = NameSet::new();
    let ghost nodes = unordered@;
    let ghost mut starts: Seq<Seq<char>> = Seq::empty();
    let mut i: usize = 0;
    while i < n
        invariant
            n == nodes.len(),
            nodes == unordered@,
            nodes.no_duplicates(),
            i <= n,
            inner@ == inside(edges@, unordered@),
            within(n as nat, arcs@),
            named(nodes, arcs@) == arcs_of(inner@),
            next@.len() == n,
            forall|u: usize| u < n ==> (#[trigger] next@[u as int])@ == targets(arcs@, u),
            forall|k: int| 0 <= k < cycles@.len() ==> is_reported_cycle(inner@, #[trigger] cycles@[k]),
            forall|t: Seq<char>|
                visited@.contains(t) <==> exists|k: int|
                    0 <= k < cycles@.len() && texts((#[trigger] cycles@[k]).nodes@).contains(t),
            forall|j: int|
                0 <= j < i && leads_to_cycle(arcs_of(inner@), #[trigger] nodes[j]) ==> reaches_one(
                    inner@,
                    nodes[j],
                    cycles@,
                ),
            found_from(inner@, nodes, cycles@, starts),
            forall|k: int| 0 <= k < starts.len() ==> nodes.take(i as int).contains(#[trigger] starts[k]),
        decreases n - i,
    {
        let ghost cycles0 = cycles@;
        let ghost starts0 = starts;
        let start = unordered.name(i).clone();
        if visited.contains(start.as_str()) {
            proof {
                let k = choose|k: int|
                    0 <= k < cycles@.len() && texts((#[trigger] cycles@[k]).nodes@).contains(start@);
                let c = texts(cycles@[k].nodes@);
                let p = choose|p: int| 0 <= p < c.len() && c[p] == start@;
                assert(is_reported_cycle(inner@, cycles@[k]));
                crate::graph::lemma_closed_walk_returns(arcs_of(inner@), c, p);
                assert(c[0] == cycles@[k].nodes@[0]@);
                assert(reaches_one(inner@, nodes[i as int], cycles@));
            }
        } else {
            match find_cycle_from(i, n, &arcs, &next) {
                Some(path) => {
                    let cycle = make_cycle(&path, unordered, &inner, &arcs);
                    proof {
                        lemma_named_reaches(nodes, arcs@, i, path@[0]);
                        lemma_named_cycle(nodes, arcs@, path@);
                        assert(texts(cycle.nodes@)[0] == nodes[path@[0] as int]);
                        assert(cycle.nodes@[0]@ == nodes[path@[0] as int]);
                    }
                    visited = mark_all(visited, &cycle.nodes);
                    cycles.push(cycle);
                    proof {
                        starts = starts.push(start@);
                        lemma_cycles_grow(inner@, nodes, cycles0, starts0, cycle, start@, i as int);
                        assert(cycles@ == cycles0.push(cycle));
                        assert(cycles@[cycles0.len() as int] == cycle);
                        assert forall|t: Seq<char>|
                            visited@.contains(t) <==> exists|k: int|
                                0 <= k < cycles@.len() && texts((#[trigger] cycles@[k]).nodes@).contains(t) by {
                            if exists|k: int|
                                0 <= k < cycles0.len() && texts((#[trigger] cycles0[k]).nodes@).contains(t) {
                                let k = choose|k: int|
                                    0 <= k < cycles0.len() && texts((#[trigger] cycles0[k]).nodes@).contains(t);
                                assert(cycles@[k] == cycles0[k]);
                            }
                            if exists|k: int|
                                0 <= k < cycles@.len() && texts((#[trigger] cycles@[k]).nodes@).contains(t) {
                                let k = choose|k: int|
                                    0 <= k < cycles@.len() && texts((#[trigger] cycles@[k]).nodes@).contains(t);
                                if k < cycles0.len() {
                                    assert(cycles0[k] == cycles@[k]);
                                }
                            }
                        }
                        assert forall|k: int| 0 <= k < starts.len() implies nodes.take(i as int).push(
                            start@,
                        ).contains(#[trigger] starts[k]) by {
                            lemma_push_contains(nodes.take(i as int), start@, starts[k]);
                            if k < starts0.len() {
                                assert(starts0[k] == starts[k]);
                            }
                        }
                    }
                },
                None => {
                    proof {
                        if leads_to_cycle(arcs_of(inner@), nodes[i as int]) {
                            lemma_leads_to_numbers(nodes, arcs@, i);
                        }
                    }
                },
            }
        }
        proof {
            assert(nodes.take(i + 1) =~= nodes.take(i as int).push(nodes[i as int]));
            assert forall|k: int| 0 <= k < starts.len() implies nodes.take(i + 1).contains(#[trigger] starts[k]) by {
                lemma_push_contains(nodes.take(i as int), nodes[i as int], starts[k]);
            }
        }
        i += 1;
    }
    proof {
        assert forall|t: Seq<char>| #[trigger]
            unordered@.contains(t) && leads_to_cycle(arcs_of(inner@), t) implies reaches_one(inner@, t, cycles@) by {
            let j = choose|j: int| 0 <= j < nodes.len() && nodes[j] == t;
            assert(leads_to_cycle(arcs_of(inner@), nodes[j]));
        }
    }
    cycles
}

/// What a further cycle, found from the node at position `i`, leaves true of the cycles.
proof fn lemma_cycles_grow(
    edges: Seq<DependencyEdge>,
    nodes: Seq<Seq<char>>,
    cycles: Seq<Cycle>,
    starts: Seq<Seq<char>>,
    cycle: Cycle,
    start: Seq<char>,
    i: int,
)
    requires
        found_from(edges, nodes, cycles, starts),
        nodes.no_duplicates(),
        0 <= i < nodes.len(),
        start == nodes[i],
        forall|k: int| 0 <= k < starts.len() ==> nodes.take(i).contains(#[trigger] starts[k]),
        reaches(arcs_of(edges), start, cycle.nodes@[0]@),
        !exists|k: int| 0 <= k < cycles.len() && texts((#[trigger] cycles[k]).nodes@).contains(start),
    ensures
        found_from(edges, nodes, cycles.push(cycle), starts.push(start)),
        reaches_one(edges, start, cycles.push(cycle)),
        forall|t: Seq<char>| reaches_one(edges, t, cycles) ==> #[trigger] reaches_one(edges, t, cycles.push(cycle)),
{
    let cycles1 = cycles.push(cycle);
    let starts1 = starts.push(start);
    assert(cycles1[cycles.len() as int] == cycle);
    assert(reaches_one(edges, start, cycles1));
    assert forall|t: Seq<char>| reaches_one(edges, t, cycles) implies #[trigger] reaches_one(edges, t, cycles1) by {
        let k = choose|k: int| 0 <= k < cycles.len() && reaches(arcs_of(edges), t, (#[trigger] cycles[k]).nodes@[0]@);
        assert(cycles1[k] == cycles[k]);
    }
    assert forall|k: int| 0 <= k < starts.len() implies starts[k] != start by {
        let j = choose|j: int| 0 <= j < i && nodes.take(i)[j] == starts[k];
        assert(nodes[j] != nodes[i]);
    }
    assert(starts1.no_duplicates());
    assert forall|k: int| 0 <= k < starts1.len() implies nodes.contains(#[trigger] starts1[k]) && reaches(
        arcs_of(edges),
        starts1[k],
        cycles1[k].nodes@[0]@,
    ) by {
        if k < starts.len() {
            assert(starts1[k] == starts[k]);
            assert(cycles1[k] == cycles[k]);
        } else {
            assert(nodes[i] == starts1[k]);
        }
    }
    assert forall|k: int, j: int| 0 <= j < k < starts1.len() implies !texts(
        (#[trigger] cycles1[j]).nodes@,
    ).contains(#[trigger] starts1[k]) by {
        assert(cycles1[j] == cycles[j]);
        if k < starts.len() {
            assert(starts1[k] == starts[k]);
        }
    }
}

/// `set` with all of `names` in it.
fn mark_all(set: NameSet, names: &Vec<String>) -> (res: NameSet)
    ensures
        forall|t: Seq<char>| #[trigger]
            res@.contains(t) <==> set@.contains(t) || texts(names@).contains(t),
{
    let ghost set0 = set@;
    let ghost all = texts(names@);
    let mut out = set;
    let mut i: usize = 0;
    while i < names.len()
        invariant
            i <= names@.len(),
            all == texts(names@),
            forall|t: Seq<char>| #[trigger]
                out@.contains(t) <==> set0.contains(t) || all.take(i as int).contains(t),
        decreases names@.len() - i,
    {
        let ghost before = out@;
        let (more, p) = out.insert(names[i].as_str());
        out = more;
        proof {
            let item = all[i as int];
            assert(all.take(i + 1) =~= all.take(i as int).push(item));
            assert forall|t: Seq<char>| #[trigger]
                out@.contains(t) <==> set0.contains(t) || all.take(i + 1).contains(t) by {
                lemma_push_contains(all.take(i as int), item, t);
                lemma_push_contains(before, item, t);
            }
        }
        i += 1;
    }
    assert(all.take(i as int) =~= all);
    out
}

// ------------------------------------------------------------------- detection

/// In `ordered`, a dependency comes before what depends on it.
pub open spec fn dependencies_first(arcs: Seq<(Seq<char>, Seq<char>)>, ordered: Seq<Seq<char>>) -> bool {
    forall|i: int, j: int|
        0 <= i < ordered.len() && 0 <= j < ordered.len() && arcs.contains(
            (#[trigger] ordered[i], #[trigger] ordered[j]),
        ) ==> j < i
}

/// What cycle detection finds on the given edges:
/// - the projects that are on no cycle, each once, dependencies first;
/// - the projects that are on a cycle, each once;
/// - cycles among the latter, such that from every one of them one of the reported cycles can be
///   reached.
pub open spec fn detects(edges: Seq<DependencyEdge>, res: CycleDetectionResult) -> bool {
    let arcs = arcs_of(edges);
    let ordered = texts(res.ordered@);
    &&& ordered.no_duplicates()
    &&& res.in_cycle@.no_duplicates()
    &&& forall|t: Seq<char>| #[trigger]
        ordered.contains(t) <==> touches(arcs, t) && !on_cycle(arcs, t)
    &&& forall|t: Seq<char>| #[trigger] res.in_cycle@.contains(t) <==> on_cycle(arcs, t)
    &&& dependencies_first(arcs, ordered)
    &&& forall|k: int| 0 <= k < res.cycles@.len() ==> is_reported_cycle(edges, #[trigger] res.cycles@[k])
    &&& forall|t: Seq<char>| #[trigger] res.in_cycle@.contains(t) ==> reaches_one(edges, t, res.cycles@)
    &&& exists|starts: Seq<Seq<char>>| found_from(edges, res.in_cycle@, res.cycles@, starts)
}

/// The nodes of the graph, in order of appearance, and the edges as pairs of positions.
fn number_nodes(edges: &[DependencyEdge]) -> (res: (NameSet, Vec<(usize, usize)>))
    ensures
        res.0@.no_duplicates(),
        within(res.0@.len(), res.1@),
        named(res.0@, res.1@) == arcs_of(edges@),
        forall|t: Seq<char>| #[trigger] res.0@.contains(t) <==> touches(arcs_of(edges@), t),
{
    let mut nodes = NameSet::new();
    let mut arcs: Vec<(usize, usize)> = Vec::new();
    let mut i: usize = 0;
    while i < edges.len()
        invariant
            i <= edges@.len(),
            nodes@.no_duplicates(),
            within(nodes@.len(), arcs@),
            named(nodes@, arcs@) == arcs_of(edges@.take(i as int)),
            forall|t: Seq<char>| #[trigger] nodes@.contains(t) <==> touches(arcs_of(edges@.take(i as int)), t),
        decreases edges@.len() - i,
    {
        let ghost nodes0 = nodes@;
        let ghost arcs0 = arcs@;
        let ghost seen = arcs_of(edges@.take(i as int));
        let (nodes1, u) = nodes.insert(edges[i].from.as_str());
        let ghost mid = nodes1@;
        let (nodes2, v) = nodes1.insert(edges[i].to.as_str());
        nodes = nodes2;
        arcs.push((u, v));
        proof {
            let e = (edges@[i as int].from@, edges@[i as int].to@);
            let seen1 = arcs_of(edges@.take(i + 1));
            assert(seen1 =~= seen.push(e));
            assert(mid[u as int] == nodes@[u as int]);
            assert forall|k: int| 0 <= k < nodes0.len() implies nodes0[k] == nodes@[k] by {
                assert(nodes0[k] == mid[k]);
            }
            assert(named(nodes@, arcs@) =~= seen1);
            assert forall|t: Seq<char>| #[trigger] nodes@.contains(t) <==> touches(seen1, t) by {
                lemma_push_contains(nodes0, e.0, t);
                lemma_push_contains(mid, e.1, t);
                if touches(seen, t) {
                    let k = choose|k: int| 0 <= k < seen.len() && ((#[trigger] seen[k]).0 == t || seen[k].1 == t);
                    assert(seen1[k] == seen[k]);
                    assert(seen1[k].0 == t || seen1[k].1 == t);
                }
                assert(seen1[seen.len() as int] == e);
                if t == e.0 || t == e.1 {
                    assert(seen1[seen.len() as int].0 == t || seen1[seen.len() as int].1 == t);
                }
                if touches(seen1, t) {
                    let k = choose|k: int| 0 <= k < seen1.len() && ((#[trigger] seen1[k]).0 == t || seen1[k].1 == t);
                    if k < seen.len() {
                        assert(seen1[k] == seen[k]);
                        assert(seen[k].0 == t || seen[k].1 == t);
                    }
                }
            }
        }
        i += 1;
    }
    assert(edges@.take(i as int) =~= edges@);
    (nodes, arcs)
}

/// Splits the nodes into those at the positions in `order`, last position first, and the others.
fn split_nodes(nodes: &NameSet, order: &Vec<usize>) -> (res: (Vec<String>, NameSet))
    requires
        order@.no_duplicates(),
        forall|i: int| 0 <= i < order@.len() ==> #[trigger] order@[i] < nodes@.len(),
    ensures
        texts(res.0@) == named_nodes(nodes@, order@.reverse()),
        res.1@.no_duplicates(),
        forall|t: Seq<char>| #[trigger]
            res.1@.contains(t) <==> nodes@.contains(t) && !named_nodes(nodes@, order@).contains(t),
{
    let n: usize = nodes.len();
    let m: usize = order.len();
    let mut is_ordered: Vec<bool> = Vec::new();
    let mut i: usize = 0;
    while i < n
        invariant
            is_ordered@.len() == i <= n,
            forall|v: int| 0 <= v < i ==> !#[trigger] is_ordered@[v],
        decreases n - i,
    {
        is_ordered.push(false);
        i += 1;
    }
    let ghost rev = order@.reverse();
    let mut ordered: Vec<String> = Vec::new();
    let mut k: usize = 0;
    while k < m
        invariant
            m == order@.len(),
            k <= m,
            n == nodes@.len(),
            rev == order@.reverse(),
            forall|i: int| 0 <= i < order@.len() ==> #[trigger] order@[i] < nodes@.len(),
            is_ordered@.len() == n,
            texts(ordered@) == named_nodes(nodes@, rev.take(k as int)),
            forall|v: usize| v < n ==> #[trigger] is_ordered@[v as int] == rev.take(k as int).contains(v),
        decreases m - k,
    {
        let v: usize = order[m - 1 - k];
        let ghost before = ordered@;
        ordered.push(nodes.name(v).clone());
        is_ordered.set(v, true);
        proof {
            assert(rev.take(k + 1) =~= rev.take(k as int).push(v));
            assert(texts(ordered@) =~= texts(before).push(nodes@[v as int]));
            assert(named_nodes(nodes@, rev.take(k + 1)) =~= named_nodes(nodes@, rev.take(k as int)).push(
                nodes@[v as int],
            ));
            assert forall|w: usize| w < n implies #[trigger] is_ordered@[w as int] == rev.take(k + 1).contains(w) by {
                lemma_push_contains(rev.take(k as int), v, w);
            }
        }
        k += 1;
    }
    assert(rev.take(k as int) =~= rev);
    let mut rest = NameSet::new();
    let mut j: usize = 0;
    while j < n
        invariant
            n == nodes@.len(),
            j <= n,
            is_ordered@.len() == n,
            nodes@.no_duplicates(),
            rest@.no_duplicates(),
            forall|v: usize| v < n ==> #[trigger] is_ordered@[v as int] == rev.contains(v),
            forall|t: Seq<char>| #[trigger]
                rest@.contains(t) <==> exists|q: int| 0 <= q < j && nodes@[q] == t && !is_ordered@[q],
        decreases n - j,
    {
        let ghost before = rest@;
        if !is_ordered[j] {
            let (more, p) = rest.insert(nodes.name(j).as_str());
            rest = more;
        }
        proof {
            assert forall|t: Seq<char>| #[trigger] rest@.contains(t) <==> exists|q: int|
                0 <= q < j + 1 && nodes@[q] == t && !is_ordered@[q] by {
                if !is_ordered@[j as int] {
                    lemma_push_contains(before, nodes@[j as int], t);
                }
                if before.contains(t) {
                    let q = choose|q: int| 0 <= q < j && nodes@[q] == t && !is_ordered@[q];
                    assert(nodes@[q] == t && !is_ordered@[q]);
                }
                if t == nodes@[j as int] && !is_ordered@[j as int] {
                    assert(nodes@[j as int] == t);
                }
            }
        }
        j += 1;
    }
    proof {
        let chosen = named_nodes(nodes@, order@);
        assert forall|t: Seq<char>| #[trigger] rest@.contains(t) <==> nodes@.contains(t) && !chosen.contains(t) by {
            if rest@.contains(t) {
                let q = choose|q: int| 0 <= q < n && nodes@[q] == t && !is_ordered@[q];
                assert(nodes@.contains(t));
                if chosen.contains(t) {
                    let p = choose|p: int| 0 <= p < chosen.len() && chosen[p] == t;
                    assert(order@[p] < n);
                    assert(order@[p] == q);
                    assert(rev[m - 1 - p] == order@[p]);
                    assert(is_ordered@[(q as usize) as int] == rev.contains(q as usize));
                }
            }
            if nodes@.contains(t) && !chosen.contains(t) {
                let q = choose|q: int| 0 <= q < nodes@.len() && nodes@[q] == t;
                assert(is_ordered@[(q as usize) as int] == rev.contains(q as usize));
                if is_ordered@[q] {
                    let p = choose|p: int| 0 <= p < rev.len() && rev[p] == q as usize;
                    assert(order@[m - 1 - p] == q as usize);
                    assert(chosen[m - 1 - p] == t);
                }
            }
        }
    }
    (ordered, rest)
}

proof fn lemma_walk_outside(edges: Seq<DependencyEdge>, nodes: Seq<Seq<char>>, w: Seq<Seq<char>>)
    requires
        is_walk(arcs_of(inside(edges, nodes)), w),
    ensures
        is_walk(arcs_of(edges), w),
{
    assert forall|i: int| 0 <= i < w.len() - 1 implies #[trigger] steps_on(arcs_of(edges), w, i) by {
        assert(steps_on(arcs_of(inside(edges, nodes)), w, i));
        lemma_inside_arc(edges, nodes, w[i], w[i + 1]);
    }
}

proof fn lemma_reaches_outside(edges: Seq<DependencyEdge>, nodes: Seq<Seq<char>>, a: Seq<char>, b: Seq<char>)
    requires
        reaches(arcs_of(inside(edges, nodes)), a, b),
    ensures
        reaches(arcs_of(edges), a, b),
{
    let w = choose|w: Seq<Seq<char>>| #[trigger]
        is_walk(arcs_of(inside(edges, nodes)), w) && w[0] == a && w.last() == b;
    lemma_walk_outside(edges, nodes, w);
}

proof fn lemma_first_edge_outside(
    edges: Seq<DependencyEdge>,
    nodes: Seq<Seq<char>>,
    u: Seq<char>,
    v: Seq<char>,
    e: DependencyEdge,
)
    requires
        is_first_edge(inside(edges, nodes), u, v, e),
        nodes.contains(u),
        nodes.contains(v),
    ensures
        is_first_edge(edges, u, v, e),
    decreases edges.len(),
{
    let inner = inside(edges, nodes);
    let k = choose|k: int|
        0 <= k < inner.len() && inner[k]@ == e@ && e.from@ == u && e.to@ == v && forall|j: int|
            0 <= j < k ==> !((#[trigger] inner[j]).from@ == u && inner[j].to@ == v);
    let rest = edges.drop_last();
    let before = inside(rest, nodes);
    let last = edges.last();
    if k < before.len() {
        assert forall|j: int| 0 <= j < k implies !((#[trigger] before[j]).from@ == u && before[j].to@ == v) by {
            assert(before[j] == inner[j]);
        }
        assert(before[k] == inner[k]);
        assert(is_first_edge(before, u, v, e));
        lemma_first_edge_outside(rest, nodes, u, v, e);
        let q = choose|q: int|
            0 <= q < rest.len() && rest[q]@ == e@ && e.from@ == u && e.to@ == v && forall|j: int|
                0 <= j < q ==> !((#[trigger] rest[j]).from@ == u && rest[j].to@ == v);
        assert(edges[q] == rest[q]);
        assert forall|j: int| 0 <= j < q implies !((#[trigger] edges[j]).from@ == u && edges[j].to@ == v) by {
            assert(rest[j] == edges[j]);
        }
    } else {
        let q = edges.len() - 1;
        assert(edges[q]@ == e@);
        assert forall|j: int| 0 <= j < q implies !((#[trigger] edges[j]).from@ == u && edges[j].to@ == v) by {
            if edges[j].from@ == u && edges[j].to@ == v {
                assert(arcs_of(rest)[j] == (u, v));
                lemma_inside_arc(rest, nodes, u, v);
                let a = arcs_of(before);
                let p = choose|p: int| 0 <= p < a.len() && a[p] == (u, v);
                assert(before[p] == inner[p]);
                assert(inner[p].from@ == u && inner[p].to@ == v);
            }
        }
    }
}

proof fn lemma_cycle_outside(edges: Seq<DependencyEdge>, nodes: Seq<Seq<char>>, c: Cycle)
    requires
        is_reported_cycle(inside(edges, nodes), c),
    ensures
        is_reported_cycle(edges, c),
{
    let inner = inside(edges, nodes);
    let t = texts(c.nodes@);
    lemma_walk_outside(edges, nodes, t);
    lemma_inside_arc(edges, nodes, t.last(), t[0]);
    assert forall|i: int| 0 <= i < t.len() implies is_first_edge(
        edges,
        t[i],
        t[if i + 1 < t.len() {
            i + 1
        } else {
            0
        }],
        #[trigger] c.edges@[i],
    ) by {
        let j = if i + 1 < t.len() {
            i + 1
        } else {
            0
        };
        if i + 1 < t.len() {
            assert(steps_on(arcs_of(inner), t, i));
        }
        lemma_inside_arc(edges, nodes, t[i], t[j]);
        lemma_first_edge_outside(edges, nodes, t[i], t[j], c.edges@[i]);
    }
}

/// A closed walk over some nodes is one on the edges among these nodes.
proof fn lemma_closed_walk_inside(edges: Seq<DependencyEdge>, nodes: Seq<Seq<char>>, c: Seq<Seq<char>>)
    requires
        is_closed_walk(arcs_of(edges), c),
        forall|i: int| 0 <= i < c.len() ==> nodes.contains(#[trigger] c[i]),
    ensures
        is_closed_walk(arcs_of(inside(edges, nodes)), c),
{
    let inner = arcs_of(inside(edges, nodes));
    assert forall|i: int| 0 <= i < c.len() - 1 implies #[trigger] steps_on(inner, c, i) by {
        assert(steps_on(arcs_of(edges), c, i));
        assert(nodes.contains(c[i]) && nodes.contains(c[i + 1]));
        lemma_inside_arc(edges, nodes, c[i], c[i + 1]);
    }
    assert(nodes.contains(c[c.len() - 1]) && nodes.contains(c[0]));
    lemma_inside_arc(edges, nodes, c.last(), c[0]);
}

proof fn lemma_closed_walk_outside(edges: Seq<DependencyEdge>, nodes: Seq<Seq<char>>, c: Seq<Seq<char>>)
    requires
        is_closed_walk(arcs_of(inside(edges, nodes)), c),
    ensures
        is_closed_walk(arcs_of(edges), c),
        forall|i: int| 0 <= i < c.len() ==> nodes.contains(#[trigger] c[i]),
{
    let inner = arcs_of(inside(edges, nodes));
    lemma_walk_outside(edges, nodes, c);
    lemma_inside_arc(edges, nodes, c.last(), c[0]);
    assert forall|i: int| 0 <= i < c.len() implies nodes.contains(#[trigger] c[i]) by {
        if i < c.len() - 1 {
            assert(steps_on(inner, c, i));
            lemma_inside_arc(edges, nodes, c[i], c[i + 1]);
        }
    }
}

/// A node on a closed walk can be reached from a closed walk, and leads to one.
proof fn lemma_on_cycle_follows(a: Seq<(Seq<char>, Seq<char>)>, c: Seq<Seq<char>>, i: int)
    requires
        is_closed_walk(a, c),
        0 <= i < c.len(),
    ensures
        on_cycle(a, c[i]),
        follows_cycle(a, c[i]),
        leads_to_cycle(a, c[i]),
{
    assert(c.contains(c[i]));
    crate::graph::lemma_walk_reaches(a, c, i);
    crate::graph::lemma_closed_walk_returns(a, c, i);
}

/// Splits nodes that follow a cycle into those on a cycle and those that only hang behind one.
fn split_stuck(edges: &[DependencyEdge], stuck: &NameSet) -> (res: (NameSet, NameSet))
    requires
        forall|t: Seq<char>| #[trigger] stuck@.contains(t) <==> follows_cycle(arcs_of(edges@), t),
    ensures
        res.0@.no_duplicates(),
        res.1@.no_duplicates(),
        forall|t: Seq<char>| #[trigger] res.0@.contains(t) <==> on_cycle(arcs_of(edges@), t),
        forall|t: Seq<char>| #[trigger]
            res.1@.contains(t) <==> follows_cycle(arcs_of(edges@), t) && !on_cycle(arcs_of(edges@), t),
{
    let (inner, arcs) = edges_inside(edges, stuck);
    let n: usize = stuck.len();
    let next = successors(n, &arcs);
    let ghost a = arcs_of(edges@);
    let ghost b = arcs_of(inner@);
    let ghost nodes = stuck@;
    let mut on = NameSet::new();
    let mut off = NameSet::new();
    let mut i: usize = 0;
    while i < n
        invariant
            n == nodes.len(),
            nodes == stuck@,
            nodes.no_duplicates(),
            i <= n,
            within(n as nat, arcs@),
            named(nodes, arcs@) == b,
            next@.len() == n,
            forall|u: usize| u < n ==> (#[trigger] next@[u as int])@ == targets(arcs@, u),
            on@.no_duplicates(),
            off@.no_duplicates(),
            forall|t: Seq<char>| #[trigger] on@.contains(t) <==> nodes.take(i as int).contains(t) && on_cycle(b, t),
            forall|t: Seq<char>| #[trigger] off@.contains(t) <==> nodes.take(i as int).contains(t) && !on_cycle(b, t),
        decreases n - i,
    {
        let ghost on0 = on@;
        let ghost off0 = off@;
        let ghost name = nodes[i as int];
        proof {
            lemma_named_on_cycle(nodes, arcs@, i);
        }
        if returns_to(i, n, &arcs, &next) {
            let (more, p) = on.insert(stuck.name(i).as_str());
            on = more;
        } else {
            let (more, p) = off.insert(stuck.name(i).as_str());
            off = more;
        }
        proof {
            assert(nodes.take(i + 1) =~= nodes.take(i as int).push(name));
            assert forall|t: Seq<char>| #[trigger] on@.contains(t) <==> nodes.take(i + 1).contains(t) && on_cycle(b, t) by {
                lemma_push_contains(nodes.take(i as int), name, t);
                lemma_push_contains(on0, name, t);
            }
            assert forall|t: Seq<char>| #[trigger] off@.contains(t) <==> nodes.take(i + 1).contains(t) && !on_cycle(
                b,
                t,
            ) by {
                lemma_push_contains(nodes.take(i as int), name, t);
                lemma_push_contains(off0, name, t);
            }
        }
        i += 1;
    }
    proof {
        assert(nodes.take(i as int) =~= nodes);
        assert forall|t: Seq<char>| on_cycle(a, t) implies nodes.contains(t) && on_cycle(b, t) by {
            let c = choose|c: Seq<Seq<char>>| #[trigger] is_closed_walk(a, c) && c.contains(t);
            assert forall|j: int| 0 <= j < c.len() implies nodes.contains(#[trigger] c[j]) by {
                lemma_on_cycle_follows(a, c, j);
            }
            lemma_closed_walk_inside(edges@, nodes, c);
        }
        assert forall|t: Seq<char>| on_cycle(b, t) implies on_cycle(a, t) by {
            let c = choose|c: Seq<Seq<char>>| #[trigger] is_closed_walk(b, c) && c.contains(t);
            lemma_closed_walk_outside(edges@, nodes, c);
        }
    }
    (on, off)
}

/// Sorts nodes that are on no cycle, dependencies first.
fn sort_acyclic(edges: &[DependencyEdge], nodes: &NameSet) -> (res: Vec<String>)
    requires
        forall|t: Seq<char>| #[trigger] nodes@.contains(t) ==> !on_cycle(arcs_of(edges@), t),
    ensures
        texts(res@).no_duplicates(),
        forall|t: Seq<char>| #[trigger] texts(res@).contains(t) <==> nodes@.contains(t),
        dependencies_first(arcs_of(edges@), texts(res@)),
{
    let (inner, arcs) = edges_inside(edges, nodes);
    let n: usize = nodes.len();
    let order = kahn_order(n, &arcs);
    let (sorted, rest) = split_nodes(nodes, &order);
    proof {
        let a = arcs_of(edges@);
        let b = arcs_of(inner@);
        let all = texts(sorted@);
        assert forall|t: Seq<char>| touches(b, t) implies nodes@.contains(t) by {
            let k = choose|k: int| 0 <= k < b.len() && ((#[trigger] b[k]).0 == t || b[k].1 == t);
            assert(b.contains(b[k]));
            lemma_inside_arc(edges@, nodes@, b[k].0, b[k].1);
        }
        lemma_split_exact(nodes@, arcs@, order@, b, all, rest@);
        assert forall|t: Seq<char>| #[trigger] all.contains(t) <==> nodes@.contains(t) by {
            if nodes@.contains(t) && follows_cycle(b, t) {
                let c = choose|c: Seq<Seq<char>>| #[trigger] is_closed_walk(b, c) && reaches(b, c[0], t);
                lemma_closed_walk_outside(edges@, nodes@, c);
                lemma_on_cycle_follows(a, c, 0);
                assert(nodes@.contains(c[0]));
            }
        }
        assert forall|i: int, j: int|
            0 <= i < all.len() && 0 <= j < all.len() && a.contains((#[trigger] all[i], #[trigger] all[j])) implies j
            < i by {
            assert(all.contains(all[i]) && all.contains(all[j]));
            lemma_inside_arc(edges@, nodes@, all[i], all[j]);
        }
    }
    sorted
}

/// Detects cycles using Kahn's algorithm.
///
/// An edge goes from a project to one that it depends on. Of the projects on the edges, those
/// that are on no cycle come back in order, dependencies first; the others are in `in_cycle`, and
/// cycles are extracted from them.
pub fn detect_cycles(edges: &[DependencyEdge]) -> (res: CycleDetectionResult)
    ensures
        detects(edges@, res),
{
    let (nodes, arcs) = number_nodes(edges);
    let order = kahn_order(nodes.len(), &arcs);
    let (mut before, stuck) = split_nodes(&nodes, &order);
    let ghost a = arcs_of(edges@);
    let ghost high = texts(before@);
    proof {
        lemma_split_exact(nodes@, arcs@, order@, a, high, stuck@);
    }
    let (in_cycle, hanging) = split_stuck(edges, &stuck);
    let mut ordered = sort_acyclic(edges, &hanging);
    let ghost low = texts(ordered@);
    ordered.append(&mut before);
    proof {
        assert(texts(ordered@) =~= low + high);
        lemma_stacked(a, low, high);
    }
    let cycles = find_cycles(&in_cycle, edges);
    let ghost starts = choose|starts: Seq<Seq<char>>|
        found_from(inside(edges@, in_cycle@), in_cycle@, cycles@, starts);
    proof {
        let on = in_cycle@;
        let inner = inside(edges@, on);
        assert forall|k: int| 0 <= k < cycles@.len() implies is_reported_cycle(edges@, #[trigger] cycles@[k]) by {
            lemma_cycle_outside(edges@, on, cycles@[k]);
        }
        assert forall|t: Seq<char>| #[trigger] on.contains(t) implies reaches_one(edges@, t, cycles@) by {
            let c = choose|c: Seq<Seq<char>>| #[trigger] is_closed_walk(a, c) && c.contains(t);
            assert forall|j: int| 0 <= j < c.len() implies on.contains(#[trigger] c[j]) by {
                lemma_on_cycle_follows(a, c, j);
            }
            lemma_closed_walk_inside(edges@, on, c);
            let i = choose|i: int| 0 <= i < c.len() && c[i] == t;
            lemma_on_cycle_follows(arcs_of(inner), c, i);
            let k = choose|k: int|
                0 <= k < cycles@.len() && reaches(arcs_of(inner), t, (#[trigger] cycles@[k]).nodes@[0]@);
            lemma_reaches_outside(edges@, on, t, cycles@[k].nodes@[0]@);
        }
        assert forall|k: int| 0 <= k < starts.len() implies on.contains(#[trigger] starts[k]) && reaches(
            a,
            starts[k],
            cycles@[k].nodes@[0]@,
        ) by {
            lemma_reaches_outside(edges@, on, starts[k], cycles@[k].nodes@[0]@);
        }
        assert(found_from(edges@, on, cycles@, starts));
    }
    let res = CycleDetectionResult { cycles, ordered, in_cycle };
    proof {
        assert(found_from(edges@, res.in_cycle@, res.cycles@, starts));
        assert(texts(res.ordered@).no_duplicates());
        assert(dependencies_first(a, texts(res.ordered@)));
    }
    res
}

/// The nodes that hang behind a cycle without being on one, and then those that follow no cycle.
proof fn lemma_stacked(a: Seq<(Seq<char>, Seq<char>)>, low: Seq<Seq<char>>, high: Seq<Seq<char>>)
    requires
        low.no_duplicates(),
        high.no_duplicates(),
        forall|t: Seq<char>| #[trigger] low.contains(t) <==> follows_cycle(a, t) && !on_cycle(a, t),
        forall|t: Seq<char>| #[trigger] high.contains(t) <==> touches(a, t) && !follows_cycle(a, t),
        dependencies_first(a, low),
        dependencies_first(a, high),
    ensures
        (low + high).no_duplicates(),
        forall|t: Seq<char>| #[trigger] (low + high).contains(t) <==> touches(a, t) && !on_cycle(a, t),
        dependencies_first(a, low + high),
{
    let all = low + high;
    let n = low.len() as int;
    assert forall|i: int| 0 <= i < low.len() implies !high.contains(#[trigger] low[i]) by {
        assert(low.contains(low[i]));
    }
    assert forall|i: int, j: int| 0 <= i < all.len() && 0 <= j < all.len() && i != j implies all[i] != all[j] by {
        if i < n && j >= n {
            assert(high.contains(high[j - n]));
            assert(!high.contains(low[i]));
        }
        if j < n && i >= n {
            assert(high.contains(high[i - n]));
            assert(!high.contains(low[j]));
        }
    }
    assert forall|t: Seq<char>| #[trigger] all.contains(t) <==> touches(a, t) && !on_cycle(a, t) by {
        if all.contains(t) {
            let i = choose|i: int| 0 <= i < all.len() && all[i] == t;
            if i < n {
                assert(low[i] == t);
                assert(low.contains(t));
                lemma_follows_touches(a, t);
            } else {
                assert(high[i - n] == t);
                assert(high.contains(t));
                if on_cycle(a, t) {
                    let c = choose|c: Seq<Seq<char>>| #[trigger] is_closed_walk(a, c) && c.contains(t);
                    let k = choose|k: int| 0 <= k < c.len() && c[k] == t;
                    lemma_on_cycle_follows(a, c, k);
                }
            }
        }
        if touches(a, t) && !on_cycle(a, t) {
            if follows_cycle(a, t) {
                assert(low.contains(t));
                let i = choose|i: int| 0 <= i < low.len() && low[i] == t;
                assert(all[i] == t);
            } else {
                assert(high.contains(t));
                let i = choose|i: int| 0 <= i < high.len() && high[i] == t;
                assert(all[n + i] == t);
            }
        }
    }
    assert forall|i: int, j: int|
        0 <= i < all.len() && 0 <= j < all.len() && a.contains((#[trigger] all[i], #[trigger] all[j])) implies j < i by {
        if i < n && j < n {
            assert(all[i] == low[i] && all[j] == low[j]);
        } else if i >= n && j >= n {
            assert(all[i] == high[i - n] && all[j] == high[j - n]);
        } else if i < n {
            let u = low[i];
            let v = high[j - n];
            assert(low.contains(u) && high.contains(v));
            let c = choose|c: Seq<Seq<char>>| #[trigger] is_closed_walk(a, c) && reaches(a, c[0], u);
            crate::graph::lemma_reaches_self(a, v);
            crate::graph::lemma_reaches_step(a, u, v, v);
            crate::graph::lemma_reaches_trans(a, c[0], u, v);
            assert(follows_cycle(a, v));
        }
    }
}

proof fn lemma_sources_named(
    nodes: Seq<Seq<char>>,
    arcs: Seq<(usize, usize)>,
    order: Seq<usize>,
    a: Seq<(Seq<char>, Seq<char>)>,
)
    requires
        nodes.no_duplicates(),
        nodes.len() <= usize::MAX,
        within(nodes.len(), arcs),
        named(nodes, arcs) == a,
        forall|i: int| 0 <= i < order.len() ==> #[trigger] order[i] < nodes.len(),
        sources_first(arcs, order),
    ensures
        sources_first(a, named_nodes(nodes, order)),
{
    let sources = named_nodes(nodes, order);
    assert forall|u: Seq<char>, j: int|
        0 <= j < sources.len() && #[trigger] a.contains((u, #[trigger] sources[j])) implies exists|i: int|
        0 <= i < j && sources[i] == u by {
        let k = choose|k: int| 0 <= k < a.len() && a[k] == (u, sources[j]);
        let p = arcs[k];
        assert(p.0 < nodes.len() && p.1 < nodes.len());
        assert(order[j] < nodes.len());
        assert(p.1 == order[j]);
        assert(arcs.contains((p.0, order[j])));
        let i = choose|i: int| 0 <= i < j && order[i] == p.0;
        assert(sources[i] == u);
    }
}

proof fn lemma_rest_fed(
    nodes: Seq<Seq<char>>,
    arcs: Seq<(usize, usize)>,
    order: Seq<usize>,
    a: Seq<(Seq<char>, Seq<char>)>,
    stuck: Seq<Seq<char>>,
)
    requires
        nodes.no_duplicates(),
        nodes.len() <= usize::MAX,
        within(nodes.len(), arcs),
        named(nodes, arcs) == a,
        forall|i: int| 0 <= i < order.len() ==> #[trigger] order[i] < nodes.len(),
        forall|v: usize|
            v < nodes.len() && !#[trigger] order.contains(v) ==> exists|u: usize|
                arcs.contains((u, v)) && !order.contains(u),
        forall|t: Seq<char>| #[trigger]
            stuck.contains(t) <==> nodes.contains(t) && !named_nodes(nodes, order).contains(t),
    ensures
        forall|v: Seq<char>| stuck.contains(v) ==> #[trigger] has_source_in(a, stuck, v),
{
    let sources = named_nodes(nodes, order);
    let m = order.len();
    assert forall|v: Seq<char>| stuck.contains(v) implies #[trigger] has_source_in(a, stuck, v) by {
        let q = choose|q: int| 0 <= q < nodes.len() && nodes[q] == v;
        let w = q as usize;
        if order.contains(w) {
            let i = choose|i: int| 0 <= i < m && order[i] == w;
            assert(sources[i] == v);
        }
        let u = choose|u: usize| arcs.contains((u, w)) && !order.contains(u);
        let k = choose|k: int| 0 <= k < arcs.len() && arcs[k] == (u, w);
        assert(arcs[k].0 < nodes.len());
        let name = nodes[u as int];
        assert(nodes.contains(name));
        if sources.contains(name) {
            let i = choose|i: int| 0 <= i < m && sources[i] == name;
            assert(order[i] < nodes.len());
            assert(order[i] == u);
        }
        lemma_named_arc(nodes, arcs, u, w);
        assert(stuck.contains(name) && a.contains((name, v)));
    }
}

/// What Kahn's order of the numbered nodes says of the named graph.
proof fn lemma_split_exact(
    nodes: Seq<Seq<char>>,
    arcs: Seq<(usize, usize)>,
    order: Seq<usize>,
    a: Seq<(Seq<char>, Seq<char>)>,
    ordered: Seq<Seq<char>>,
    stuck: Seq<Seq<char>>,
)
    requires
        nodes.no_duplicates(),
        nodes.len() <= usize::MAX,
        within(nodes.len(), arcs),
        named(nodes, arcs) == a,
        forall|t: Seq<char>| #[trigger] touches(a, t) ==> nodes.contains(t),
        order.no_duplicates(),
        forall|i: int| 0 <= i < order.len() ==> #[trigger] order[i] < nodes.len(),
        sources_first(arcs, order),
        forall|v: usize|
            v < nodes.len() && !#[trigger] order.contains(v) ==> exists|u: usize|
                arcs.contains((u, v)) && !order.contains(u),
        ordered == named_nodes(nodes, order.reverse()),
        forall|t: Seq<char>| #[trigger]
            stuck.contains(t) <==> nodes.contains(t) && !named_nodes(nodes, order).contains(t),
    ensures
        ordered.no_duplicates(),
        forall|t: Seq<char>| #[trigger]
            ordered.contains(t) <==> nodes.contains(t) && !follows_cycle(a, t),
        forall|t: Seq<char>| #[trigger] stuck.contains(t) <==> follows_cycle(a, t),
        dependencies_first(a, ordered),
{
    let sources = named_nodes(nodes, order);
    let rev = order.reverse();
    let m = order.len();
    assert forall|i: int, j: int| 0 <= i < m && 0 <= j < m && i != j implies ordered[i] != ordered[j] by {
        assert(rev[i] == order[m - 1 - i] && rev[j] == order[m - 1 - j]);
        assert(order[m - 1 - i] < nodes.len() && order[m - 1 - j] < nodes.len());
    }
    assert forall|t: Seq<char>| ordered.contains(t) <==> sources.contains(t) by {
        if ordered.contains(t) {
            let i = choose|i: int| 0 <= i < m && ordered[i] == t;
            assert(sources[m - 1 - i] == t);
        }
        if sources.contains(t) {
            let i = choose|i: int| 0 <= i < m && sources[i] == t;
            assert(ordered[m - 1 - i] == t);
        }
    }
    lemma_sources_named(nodes, arcs, order, a);
    lemma_rest_fed(nodes, arcs, order, a, stuck);
    assert forall|t: Seq<char>| follows_cycle(a, t) implies touches(a, t) by {
        lemma_follows_touches(a, t);
    }
    assert forall|t: Seq<char>| #[trigger] stuck.contains(t) <==> follows_cycle(a, t) by {
        if stuck.contains(t) {
            lemma_stuck_follows_cycle(a, stuck, t);
        }
        if follows_cycle(a, t) {
            assert(nodes.contains(t));
            if sources.contains(t) {
                lemma_ordered_not_after_cycle(a, sources, t);
            }
        }
    }
    assert forall|t: Seq<char>| #[trigger] ordered.contains(t) <==> nodes.contains(t) && !follows_cycle(a, t) by {
        if ordered.contains(t) {
            let i = choose|i: int| 0 <= i < m && sources[i] == t;
            assert(order[i] < nodes.len());
            assert(nodes.contains(t));
            lemma_ordered_not_after_cycle(a, sources, t);
        }
        if nodes.contains(t) && !follows_cycle(a, t) {
            assert(!stuck.contains(t));
        }
    }
    assert forall|i: int, j: int|
        0 <= i < ordered.len() && 0 <= j < ordered.len() && a.contains(
            (#[trigger] ordered[i], #[trigger] ordered[j]),
        ) implies j < i by {
        assert(sources[m - 1 - j] == ordered[j]);
        let q = choose|q: int| 0 <= q < m - 1 - j && sources[q] == ordered[i];
        assert(order[q] < nodes.len() && order[m - 1 - i] < nodes.len());
        assert(rev[i] == order[m - 1 - i]);
        assert(nodes[order[q] as int] == nodes[order[m - 1 - i] as int]);
        assert(q == m - 1 - i);
    }
}

proof fn lemma_follows_touches(a: Seq<(Seq<char>, Seq<char>)>, t: Seq<char>)
    requires
        follows_cycle(a, t),
    ensures
        touches(a, t),
{
    let c = choose|c: Seq<Seq<char>>| #[trigger] is_closed_walk(a, c) && reaches(a, c[0], t);
    let w = choose|w: Seq<Seq<char>>| #[trigger] is_walk(a, w) && w[0] == c[0] && w.last() == t;
    if w.len() == 1 {
        let k = choose|k: int| 0 <= k < a.len() && a[k] == (c.last(), c[0]);
        assert(a[k].0 == t || a[k].1 == t);
    } else {
        assert(steps_on(a, w, w.len() - 2));
        let k = choose|k: int| 0 <= k < a.len() && a[k] == (w[w.len() - 2], w[w.len() - 2 + 1]);
        assert(a[k].0 == t || a[k].1 == t);
    }
}

// ------------------------------------------------------------------------- laws

/// Where there is no closed walk, every project is ordered and no cycle is reported; where there
/// is one, some project is left unordered and a cycle is reported.
pub proof fn law_acyclic_iff_all_ordered(edges: Seq<DependencyEdge>, res: CycleDetectionResult)
    requires
        detects(edges, res),
    ensures
        (forall|c: Seq<Seq<char>>| !#[trigger] is_closed_walk(arcs_of(edges), c)) <==> res.in_cycle@.len() == 0,
        res.cycles@.len() == 0 <==> res.in_cycle@.len() == 0,
        res.in_cycle@.len() == 0 <==> forall|t: Seq<char>|
            touches(arcs_of(edges), t) ==> #[trigger] texts(res.ordered@).contains(t),
{
    let a = arcs_of(edges);
    if res.in_cycle@.len() > 0 {
        let t = res.in_cycle@[0];
        assert(res.in_cycle@.contains(t));
        lemma_on_cycle_touches(a, t);
        assert(!texts(res.ordered@).contains(t));
        assert(reaches_one(edges, t, res.cycles@));
    } else {
        assert forall|c: Seq<Seq<char>>| !#[trigger] is_closed_walk(a, c) by {
            if is_closed_walk(a, c) {
                lemma_on_cycle_follows(a, c, 0);
                assert(res.in_cycle@.contains(c[0]));
            }
        }
        assert forall|t: Seq<char>| touches(a, t) implies #[trigger] texts(res.ordered@).contains(t) by {
            if on_cycle(a, t) {
                assert(res.in_cycle@.contains(t));
            }
        }
        if res.cycles@.len() > 0 {
            assert(is_reported_cycle(edges, res.cycles@[0]));
        }
    }
}

proof fn lemma_on_cycle_touches(a: Seq<(Seq<char>, Seq<char>)>, t: Seq<char>)
    requires
        on_cycle(a, t),
    ensures
        touches(a, t),
{
    let v = crate::graph::lemma_on_cycle_returns(a, t);
    let k = choose|k: int| 0 <= k < a.len() && a[k] == (t, v);
    assert(a[k].0 == t);
}

/// A project is either ordered or in a cycle, never both, and nothing else is either.
pub proof fn law_partition(edges: Seq<DependencyEdge>, res: CycleDetectionResult, t: Seq<char>)
    requires
        detects(edges, res),
    ensures
        touches(arcs_of(edges), t) <==> texts(res.ordered@).contains(t) || res.in_cycle@.contains(t),
        !(texts(res.ordered@).contains(t) && res.in_cycle@.contains(t)),
{
    if res.in_cycle@.contains(t) {
        lemma_on_cycle_touches(arcs_of(edges), t);
    }
}

/// Every node of a reported cycle is among those that are in cycles.
pub proof fn law_cycle_nodes_left_over(edges: Seq<DependencyEdge>, res: CycleDetectionResult, k: int, i: int)
    requires
        detects(edges, res),
        0 <= k < res.cycles@.len(),
        0 <= i < res.cycles@[k].nodes@.len(),
    ensures
        res.in_cycle@.contains(res.cycles@[k].nodes@[i]@),
{
    let a = arcs_of(edges);
    let c = texts(res.cycles@[k].nodes@);
    assert(is_reported_cycle(edges, res.cycles@[k]));
    lemma_on_cycle_follows(a, c, i);
}

} // verus!
