//! The matrix of a GitHub Actions workflow: the units in cells, and the cells in layers that run
//! one after the other.

use crate::layers::compute_layers;
#[allow(unused_imports)]
use crate::layers::{
    distinct_dirs, distinct_names, known_names, law_dependencies_run_first, law_layers_in_any_order, layers_of,
    lemma_all_layered, same_projects, settled_names,
};
use crate::names::NameSet;
use crate::output::{dependency_names, layer_of, make_relative, derive_name_from_dir};
#[allow(unused_imports)]
use crate::output::{name_for, names_for, relative_to};
use crate::project::Project;
#[allow(unused_imports)]
use crate::project::{project_views, ProjectView};
use crate::text::{clone_texts, concat, decimal_text, text_less};
#[allow(unused_imports)]
use crate::text::{decimal, opt_text, precedes, texts};
use vstd::prelude::*;

verus! {

/// A unit in the matrix.
#[derive(Debug, PartialEq, Eq)]
pub struct GhaUnit {
    pub name: String,
    pub working_directory: String,
    pub dependencies: Vec<String>,
    pub changed: bool,
}

pub struct GhaUnitView {
    pub name: Seq<char>,
    pub working_directory: Seq<char>,
    pub dependencies: Seq<Seq<char>>,
    pub changed: bool,
}

impl View for GhaUnit {
    type V = GhaUnitView;

    open spec fn view(&self) -> GhaUnitView {
        GhaUnitView {
            name: self.name@,
            working_directory: self.working_directory@,
            dependencies: texts(self.dependencies@),
            changed: self.changed,
        }
    }
}

impl Clone for GhaUnit {
    fn clone(&self) -> (res: Self)
        ensures
            res@ == self@,
    {
        GhaUnit {
            name: self.name.clone(),
            working_directory: self.working_directory.clone(),
            dependencies: clone_texts(&self.dependencies),
            changed: self.changed,
        }
    }
}

/// The views of units.
pub open spec fn gha_views(units: Seq<GhaUnit>) -> Seq<GhaUnitView> {
    units.map_values(|u: GhaUnit| u@)
}

/// One cell of the matrix: units that one job runs one after the other.
#[derive(Debug, PartialEq, Eq)]
pub struct GhaCell {
    pub name: String,
    pub layer: u32,
    pub changed: bool,
    pub units: Vec<GhaUnit>,
}

pub struct GhaCellView {
    pub name: Seq<char>,
    pub layer: u32,
    pub changed: bool,
    pub units: Seq<GhaUnitView>,
}

impl View for GhaCell {
    type V = GhaCellView;

    open spec fn view(&self) -> GhaCellView {
        GhaCellView { name: self.name@, layer: self.layer, changed: self.changed, units: gha_views(self.units@) }
    }
}

/// The views of cells.
pub open spec fn cell_views(cells: Seq<GhaCell>) -> Seq<GhaCellView> {
    cells.map_values(|c: GhaCell| c@)
}

/// How wide the matrix may be.
#[derive(Debug, Clone, Copy, PartialEq, Eq)]
pub struct GhaOptions {
    /// How many units go into one cell; 0 counts as 1
    pub units_per_job: usize,
    /// How many cells go into one layer; 0 stands for no limit
    pub max_units_per_layer: usize,
    /// How many layers there may be
    pub max_layers: Option<usize>,
}

impl Default for GhaOptions {
    fn default() -> (res: Self)
        ensures
            res == (GhaOptions { units_per_job: 1, max_units_per_layer: 256, max_layers: None }),
    {
        GhaOptions { units_per_job: 1, max_units_per_layer: 256, max_layers: None }
    }
}

// ---------------------------------------------------------------------- chunks

/// The elements in chunks of `k`, the last of which may be smaller; one chunk where `k` is 0.
pub open spec fn chunked<T>(s: Seq<T>, k: nat) -> Seq<Seq<T>>
    decreases s.len(),
{
    if s.len() == 0 {
        Seq::empty()
    } else if k == 0 || s.len() <= k {
        seq![s]
    } else {
        seq![s.take(k as int)] + chunked(s.skip(k as int), k)
    }
}

/// The elements of the chunks, one after the other.
pub open spec fn flattened<T>(chunks: Seq<Seq<T>>) -> Seq<T>
    decreases chunks.len(),
{
    if chunks.len() == 0 {
        Seq::empty()
    } else {
        flattened(chunks.drop_last()) + chunks.last()
    }
}

proof fn lemma_flattened_front<T>(first: Seq<T>, rest: Seq<Seq<T>>)
    ensures
        flattened(seq![first] + rest) == first + flattened(rest),
    decreases rest.len(),
{
    let all = seq![first] + rest;
    if rest.len() == 0 {
        assert(all.drop_last() =~= Seq::empty());
        assert(flattened(all.drop_last()) =~= Seq::empty());
        assert(flattened(all) =~= first + flattened(rest));
    } else {
        assert(all.drop_last() =~= seq![first] + rest.drop_last());
        lemma_flattened_front(first, rest.drop_last());
        assert(flattened(all) =~= first + flattened(rest));
    }
}

proof fn lemma_flattened_concat<T>(a: Seq<Seq<T>>, b: Seq<Seq<T>>)
    ensures
        flattened(a + b) == flattened(a) + flattened(b),
    decreases b.len(),
{
    if b.len() == 0 {
        assert(a + b =~= a);
        assert(flattened(a) + flattened(b) =~= flattened(a));
    } else {
        assert((a + b).drop_last() =~= a + b.drop_last());
        lemma_flattened_concat(a, b.drop_last());
        assert(flattened(a + b) =~= flattened(a) + flattened(b));
    }
}

proof fn lemma_chunk_count(n: nat, k: nat)
    requires
        k > 0,
    ensures
        n == 0 ==> (n + k - 1) / (k as int) == 0,
        0 < n <= k ==> (n + k - 1) / (k as int) == 1,
        n > k ==> (n + k - 1) / (k as int) == 1 + ((n - k) + k - 1) / (k as int),
{
    if n == 0 {
        assert((k - 1) / (k as int) == 0) by (nonlinear_arith)
            requires
                k > 0,
        ;
    } else if n <= k {
        assert((n + k - 1) / (k as int) == 1) by (nonlinear_arith)
            requires
                0 < n <= k,
        ;
    } else {
        assert((n + k - 1) / (k as int) == 1 + (n - 1) / (k as int)) by (nonlinear_arith)
            requires
                k > 0,
                n > k,
        ;
    }
}

/// Chunking loses nothing and keeps the order; no chunk is empty, none is larger than asked for, and
/// there are no more chunks than it takes.
pub proof fn law_chunks<T>(s: Seq<T>, k: nat)
    ensures
        flattened(chunked(s, k)) == s,
        forall|i: int| 0 <= i < chunked(s, k).len() ==> (#[trigger] chunked(s, k)[i]).len() > 0,
        k > 0 ==> forall|i: int| 0 <= i < chunked(s, k).len() ==> (#[trigger] chunked(s, k)[i]).len() <= k,
        chunked(s, k).len() <= s.len(),
        k > 0 ==> chunked(s, k).len() == (s.len() + k - 1) / (k as int),
    decreases s.len(),
{
    if k > 0 {
        lemma_chunk_count(s.len(), k);
    }
    if s.len() == 0 {
        assert(flattened(chunked(s, k)) =~= s);
    } else if k == 0 || s.len() <= k {
        assert(seq![s].drop_last() =~= Seq::empty());
        assert(flattened(seq![s].drop_last()) =~= Seq::empty());
        assert(flattened(chunked(s, k)) =~= s);
    } else {
        let first = s.take(k as int);
        let rest = chunked(s.skip(k as int), k);
        law_chunks(s.skip(k as int), k);
        lemma_flattened_front(first, rest);
        assert(first + s.skip(k as int) =~= s);
        assert forall|i: int| 0 <= i < chunked(s, k).len() implies (#[trigger] chunked(s, k)[i]).len() > 0 && chunked(s, k)[i].len()
            <= k by {
            if i > 0 {
                assert(chunked(s, k)[i] == rest[i - 1]);
            }
        }
    }
}

// ---------------------------------------------------------------------- layers

/// The unit of a project.
pub open spec fn unit_view(p: ProjectView, base: Option<Seq<char>>, changed: Seq<Seq<char>>) -> GhaUnitView {
    GhaUnitView {
        name: name_for(p.dir, base),
        working_directory: relative_to(p.dir, base),
        dependencies: names_for(p.project_dependencies, base),
        changed: changed.contains(p.dir),
    }
}

/// The number of units at the front whose names do not come behind that of `u`.
pub open spec fn place_by_name(units: Seq<GhaUnitView>, u: GhaUnitView) -> int
    decreases units.len(),
{
    if units.len() == 0 || precedes(u.name, units[0].name) {
        0
    } else {
        1 + place_by_name(units.skip(1), u)
    }
}

/// The units of the projects in a layer, sorted by name.
pub open spec fn layer_units(
    projects: Seq<ProjectView>,
    all: Seq<ProjectView>,
    base: Option<Seq<char>>,
    changed: Seq<Seq<char>>,
    layer: nat,
) -> Seq<GhaUnitView>
    decreases projects.len(),
{
    if projects.len() == 0 {
        Seq::empty()
    } else {
        let before = layer_units(projects.drop_last(), all, base, changed, layer);
        let p = projects.last();
        if layers_of(all)[p.name] == layer {
            let u = unit_view(p, base, changed);
            before.insert(place_by_name(before, u), u)
        } else {
            before
        }
    }
}

/// The cells of the first `n` layers, in the layers that they run in: the units of a layer go into
/// cells, and the cells of a layer that holds too many go into several.
pub open spec fn buckets(
    projects: Seq<ProjectView>,
    base: Option<Seq<char>>,
    changed: Seq<Seq<char>>,
    opts: GhaOptions,
    n: nat,
) -> Seq<Seq<Seq<GhaUnitView>>>
    decreases n,
{
    if n == 0 {
        Seq::empty()
    } else {
        let before = buckets(projects, base, changed, opts, (n - 1) as nat);
        let units = layer_units(projects, projects, base, changed, (n - 1) as nat);
        before + chunked(chunked(units, per_job(opts)), opts.max_units_per_layer as nat)
    }
}

/// How many units go into one cell.
pub open spec fn per_job(opts: GhaOptions) -> nat {
    if opts.units_per_job == 0 {
        1
    } else {
        opts.units_per_job as nat
    }
}

/// One more than the highest layer among the first projects.
pub open spec fn layer_count(projects: Seq<ProjectView>, all: Seq<ProjectView>) -> nat
    decreases projects.len(),
{
    if projects.len() == 0 {
        0
    } else {
        let before = layer_count(projects.drop_last(), all);
        let mine = layers_of(all)[projects.last().name] as nat + 1;
        if mine > before {
            mine
        } else {
            before
        }
    }
}

/// The name of a cell: that of its unit, or that of the first of several.
pub open spec fn cell_name(units: Seq<GhaUnitView>) -> Seq<char> {
    if units.len() == 0 {
        Seq::empty()
    } else if units.len() == 1 {
        units[0].name
    } else {
        units[0].name + " (+"@ + decimal((units.len() - 1) as nat) + " more)"@
    }
}

/// One of the units is changed.
pub open spec fn any_changed(units: Seq<GhaUnitView>) -> bool {
    exists|i: int| 0 <= i < units.len() && (#[trigger] units[i]).changed
}

/// The cell with the given units.
pub open spec fn cell_of(units: Seq<GhaUnitView>, layer: u32) -> GhaCellView {
    GhaCellView { name: cell_name(units), layer, changed: any_changed(units), units }
}

/// The cells of the matrix, layer by layer.
pub open spec fn matrix_cells(layers: Seq<Seq<Seq<GhaUnitView>>>) -> Seq<GhaCellView>
    decreases layers.len(),
{
    if layers.len() == 0 {
        Seq::empty()
    } else {
        matrix_cells(layers.drop_last()) + layers.last().map_values(
            |units: Seq<GhaUnitView>| cell_of(units, (layers.len() - 1) as u32),
        )
    }
}

/// The projects that are changed.
pub open spec fn changed_only(projects: Seq<ProjectView>, changed: Seq<Seq<char>>) -> Seq<ProjectView>
    decreases projects.len(),
{
    if projects.len() == 0 {
        Seq::empty()
    } else {
        let before = changed_only(projects.drop_last(), changed);
        if changed.contains(projects.last().dir) {
            before.push(projects.last())
        } else {
            before
        }
    }
}

/// The layers of the matrix. Where unchanged units are dropped, the layers are assigned among those
/// that are left.
pub open spec fn gha_layers(
    projects: Seq<ProjectView>,
    base: Option<Seq<char>>,
    changed: Seq<Seq<char>>,
    filter_unchanged: bool,
    opts: GhaOptions,
) -> Seq<Seq<Seq<GhaUnitView>>> {
    let kept = if filter_unchanged {
        changed_only(projects, changed)
    } else {
        projects
    };
    buckets(kept, base, changed, opts, layer_count(kept, kept))
}

/// The message for a matrix with too many layers.
pub open spec fn too_deep(layers: nat, max: nat) -> Seq<char> {
    "the graph needs "@ + decimal(layers) + " layers, but at most "@ + decimal(max) + " are allowed"@
}

// -------------------------------------------------------------------- building

spec fn views2(v: Seq<Vec<GhaUnit>>) -> Seq<Seq<GhaUnitView>> {
    v.map_values(|u: Vec<GhaUnit>| gha_views(u@))
}

spec fn views3(v: Seq<Vec<Vec<GhaUnit>>>) -> Seq<Seq<Seq<GhaUnitView>>> {
    v.map_values(|u: Vec<Vec<GhaUnit>>| views2(u@))
}

fn copy_units(units: &Vec<GhaUnit>, lo: usize, hi: usize) -> (res: Vec<GhaUnit>)
    requires
        lo <= hi <= units@.len(),
    ensures
        gha_views(res@) == gha_views(units@).subrange(lo as int, hi as int),
{
    let mut out: Vec<GhaUnit> = Vec::new();
    let mut i: usize = lo;
    while i < hi
        invariant
            lo <= i <= hi <= units@.len(),
            out@.len() == i - lo,
            forall|j: int| 0 <= j < out@.len() ==> (#[trigger] out@[j])@ == units@[lo + j]@,
        decreases hi - i,
    {
        let u = units[i].clone();
        out.push(u);
        i += 1;
    }
    assert(gha_views(out@) =~= gha_views(units@).subrange(lo as int, hi as int));
    out
}

fn copy_cells(cells: &Vec<Vec<GhaUnit>>, lo: usize, hi: usize) -> (res: Vec<Vec<GhaUnit>>)
    requires
        lo <= hi <= cells@.len(),
    ensures
        views2(res@) == views2(cells@).subrange(lo as int, hi as int),
{
    let mut out: Vec<Vec<GhaUnit>> = Vec::new();
    let mut i: usize = lo;
    while i < hi
        invariant
            lo <= i <= hi <= cells@.len(),
            out@.len() == i - lo,
            forall|j: int| 0 <= j < out@.len() ==> gha_views((#[trigger] out@[j])@) == gha_views(cells@[lo + j]@),
        decreases hi - i,
    {
        let c = copy_units(&cells[i], 0, cells[i].len());
        proof {
            let all = gha_views(cells@[i as int]@);
            assert(all.subrange(0, all.len() as int) =~= all);
        }
        out.push(c);
        i += 1;
    }
    assert(views2(out@) =~= views2(cells@).subrange(lo as int, hi as int));
    out
}

proof fn lemma_chunk_step<T>(s: Seq<T>, k: nat, start: int, end: int)
    requires
        0 <= start < s.len(),
        end == (if k == 0 || s.len() - start <= k {
            s.len() as int
        } else {
            start + k
        }),
    ensures
        chunked(s.skip(start), k) == seq![s.subrange(start, end)] + chunked(s.skip(end), k),
{
    let rest = s.skip(start);
    if k == 0 || rest.len() <= k {
        assert(s.subrange(start, end) =~= rest);
        assert(s.skip(end) =~= Seq::empty());
        assert(seq![rest] + chunked(s.skip(end), k) =~= seq![rest]);
    } else {
        assert(rest.take(k as int) =~= s.subrange(start, end));
        assert(rest.skip(k as int) =~= s.skip(end));
    }
}

fn chunk_units(units: &Vec<GhaUnit>, k: usize) -> (res: Vec<Vec<GhaUnit>>)
    ensures
        views2(res@) == chunked(gha_views(units@), k as nat),
{
    let ghost all = gha_views(units@);
    let mut out: Vec<Vec<GhaUnit>> = Vec::new();
    let mut start: usize = 0;
    assert(all.skip(0) =~= all);
    assert(views2(out@) + chunked(all, k as nat) =~= chunked(all, k as nat));
    while start < units.len()
        invariant
            start <= units@.len(),
            all == gha_views(units@),
            views2(out@) + chunked(all.skip(start as int), k as nat) == chunked(all, k as nat),
        decreases units@.len() - start,
    {
        let end: usize = if k == 0 || units.len() - start <= k {
            units.len()
        } else {
            start + k
        };
        let ghost before = views2(out@);
        proof {
            lemma_chunk_step(all, k as nat, start as int, end as int);
        }
        let part = copy_units(units, start, end);
        let ghost pv = gha_views(part@);
        out.push(part);
        proof {
            assert(views2(out@) =~= before.push(pv));
            let more = chunked(all.skip(end as int), k as nat);
            assert(before.push(pv) + more =~= before + (seq![pv] + more));
        }
        start = end;
    }
    proof {
        assert(all.skip(start as int) =~= Seq::empty());
        assert(views2(out@) + chunked(all.skip(start as int), k as nat) =~= views2(out@));
    }
    out
}

fn chunk_cells(cells: &Vec<Vec<GhaUnit>>, k: usize) -> (res: Vec<Vec<Vec<GhaUnit>>>)
    ensures
        views3(res@) == chunked(views2(cells@), k as nat),
{
    let ghost all = views2(cells@);
    let mut out: Vec<Vec<Vec<GhaUnit>>> = Vec::new();
    let mut start: usize = 0;
    assert(all.skip(0) =~= all);
    assert(views3(out@) + chunked(all, k as nat) =~= chunked(all, k as nat));
    while start < cells.len()
        invariant
            start <= cells@.len(),
            all == views2(cells@),
            views3(out@) + chunked(all.skip(start as int), k as nat) == chunked(all, k as nat),
        decreases cells@.len() - start,
    {
        let end: usize = if k == 0 || cells.len() - start <= k {
            cells.len()
        } else {
            start + k
        };
        let ghost before = views3(out@);
        proof {
            lemma_chunk_step(all, k as nat, start as int, end as int);
        }
        let part = copy_cells(cells, start, end);
        let ghost pv = views2(part@);
        out.push(part);
        proof {
            assert(views3(out@) =~= before.push(pv));
            let more = chunked(all.skip(end as int), k as nat);
            assert(before.push(pv) + more =~= before + (seq![pv] + more));
        }
        start = end;
    }
    proof {
        assert(all.skip(start as int) =~= Seq::empty());
        assert(views3(out@) + chunked(all.skip(start as int), k as nat) =~= views3(out@));
    }
    out
}

proof fn lemma_place_by_name(units: Seq<GhaUnitView>, u: GhaUnitView, k: int)
    requires
        0 <= k <= units.len(),
        forall|j: int| 0 <= j < k ==> !precedes(u.name, (#[trigger] units[j]).name),
        k < units.len() ==> precedes(u.name, units[k].name),
    ensures
        place_by_name(units, u) == k,
    decreases units.len(),
{
    if k > 0 {
        assert(!precedes(u.name, units[0].name));
        assert forall|j: int| 0 <= j < k - 1 implies !precedes(u.name, (#[trigger] units.skip(1)[j]).name) by {
            assert(units.skip(1)[j] == units[j + 1]);
        }
        lemma_place_by_name(units.skip(1), u, k - 1);
    }
}

fn make_unit(p: &Project, base: &Option<String>, changed: &NameSet) -> (res: GhaUnit)
    ensures
        res@ == unit_view(p@, opt_text(*base), changed@),
{
    let working_directory = make_relative(p.dir.as_str(), base);
    GhaUnit {
        name: derive_name_from_dir(working_directory.as_str()),
        working_directory,
        dependencies: dependency_names(&p.project_dependencies, base),
        changed: changed.contains(p.dir.as_str()),
    }
}

fn collect_layer(
    projects: &[Project],
    layers: &vstd::hash_map::StringHashMap<u32>,
    base: &Option<String>,
    changed: &NameSet,
    layer: u32,
) -> (res: Vec<GhaUnit>)
    requires
        layers@ == layers_of(project_views(projects@)),
    ensures
        gha_views(res@) == layer_units(
            project_views(projects@),
            project_views(projects@),
            opt_text(*base),
            changed@,
            layer as nat,
        ),
{
    let ghost ps = project_views(projects@);
    let mut out: Vec<GhaUnit> = Vec::new();
    let mut i: usize = 0;
    assert(ps.take(0) =~= Seq::empty());
    assert(gha_views(out@) =~= Seq::empty());
    while i < projects.len()
        invariant
            i <= projects@.len(),
            ps == project_views(projects@),
            layers@ == layers_of(ps),
            gha_views(out@) == layer_units(ps.take(i as int), ps, opt_text(*base), changed@, layer as nat),
        decreases projects@.len() - i,
    {
        let ghost before = gha_views(out@);
        let p = &projects[i];
        proof {
            assert(ps.take(i + 1).drop_last() =~= ps.take(i as int));
            assert(ps.take(i + 1).last() == p@);
            assert(ps[i as int] == p@);
            lemma_all_layered(ps, i as int);
        }
        if layer_of(layers, p.name.as_str()) == layer {
            let u = make_unit(p, base, changed);
            let ghost uv = u@;
            let mut k: usize = 0;
            while k < out.len() && !text_less(u.name.as_str(), out[k].name.as_str())
                invariant
                    k <= out@.len(),
                    before == gha_views(out@),
                    uv == u@,
                    forall|j: int| 0 <= j < k ==> !precedes(uv.name, (#[trigger] before[j]).name),
                decreases out@.len() - k,
            {
                assert(before[k as int] == out@[k as int]@);
                k += 1;
            }
            proof {
                if k < out@.len() {
                    assert(before[k as int] == out@[k as int]@);
                }
                lemma_place_by_name(before, uv, k as int);
            }
            out.insert(k, u);
            assert(gha_views(out@) =~= before.insert(k as int, uv));
        }
        i += 1;
    }
    assert(ps.take(i as int) =~= ps);
    out
}

fn make_cell(units: Vec<GhaUnit>, layer: u32) -> (res: GhaCell)
    ensures
        res@ == cell_of(gha_views(units@), layer),
{
    let ghost views = gha_views(units@);
    let mut changed = false;
    let mut i: usize = 0;
    while i < units.len()
        invariant
            i <= units@.len(),
            views == gha_views(units@),
            changed ==> any_changed(views),
            !changed ==> forall|j: int| 0 <= j < i ==> !(#[trigger] views[j]).changed,
        decreases units@.len() - i,
    {
        assert(views[i as int] == units@[i as int]@);
        if units[i].changed {
            changed = true;
        }
        i += 1;
    }
    let name = if units.len() == 0 {
        let none = String::new();
        assert(none@ =~= Seq::empty());
        none
    } else {
        assert(views[0] == units@[0]@);
        if units.len() == 1 {
            units[0].name.clone()
        } else {
            let more: u64 = (units.len() - 1) as u64;
            let mut label = concat(units[0].name.as_str(), " (+");
            let number = decimal_text(more);
            label.append(number.as_str());
            label.append(" more)");
            label
        }
    };
    GhaCell { name, layer, changed, units }
}

fn keep_changed(projects: &[Project], changed: &NameSet) -> (res: Vec<Project>)
    ensures
        project_views(res@) == changed_only(project_views(projects@), changed@),
        res@.len() <= projects@.len(),
{
    let ghost ps = project_views(projects@);
    let mut out: Vec<Project> = Vec::new();
    let mut i: usize = 0;
    assert(ps.take(0) =~= Seq::empty());
    assert(project_views(out@) =~= Seq::empty());
    while i < projects.len()
        invariant
            i <= projects@.len(),
            out@.len() <= i,
            ps == project_views(projects@),
            project_views(out@) == changed_only(ps.take(i as int), changed@),
        decreases projects@.len() - i,
    {
        let ghost before = project_views(out@);
        proof {
            assert(ps.take(i + 1).drop_last() =~= ps.take(i as int));
            assert(ps.take(i + 1).last() == projects@[i as int]@);
        }
        if changed.contains(projects[i].dir.as_str()) {
            out.push(projects[i].clone());
            assert(project_views(out@) =~= before.push(projects@[i as int]@));
        }
        i += 1;
    }
    assert(ps.take(i as int) =~= ps);
    out
}

fn copy_projects(projects: &[Project]) -> (res: Vec<Project>)
    ensures
        project_views(res@) == project_views(projects@),
        res@.len() == projects@.len(),
{
    let mut out: Vec<Project> = Vec::new();
    let mut i: usize = 0;
    while i < projects.len()
        invariant
            i <= projects@.len(),
            out@.len() == i,
            forall|j: int| 0 <= j < i ==> (#[trigger] out@[j])@ == projects@[j]@,
        decreases projects@.len() - i,
    {
        let p = projects[i].clone();
        out.push(p);
        i += 1;
    }
    assert(project_views(out@) =~= project_views(projects@));
    out
}

fn build_layers(projects: &Vec<Project>, base: &Option<String>, changed: &NameSet, opts: &GhaOptions) -> (res: Vec<
    Vec<Vec<GhaUnit>>,
>)
    requires
        projects@.len() <= u32::MAX,
    ensures
        views3(res@) == buckets(
            project_views(projects@),
            opt_text(*base),
            changed@,
            *opts,
            layer_count(project_views(projects@), project_views(projects@)),
        ),
{
    let ghost ps = project_views(projects@);
    let layers = compute_layers(projects.as_slice());
    let mut count: u64 = 0;
    let mut i: usize = 0;
    assert(ps.take(0) =~= Seq::empty());
    while i < projects.len()
        invariant
            i <= projects@.len(),
            ps == project_views(projects@),
            layers@ == layers_of(ps),
            count == layer_count(ps.take(i as int), ps),
            count <= u32::MAX as u64 + 1,
        decreases projects@.len() - i,
    {
        proof {
            assert(ps.take(i + 1).drop_last() =~= ps.take(i as int));
            assert(ps.take(i + 1).last() == projects@[i as int]@);
            assert(ps[i as int] == projects@[i as int]@);
            lemma_all_layered(ps, i as int);
        }
        let mine: u64 = layer_of(&layers, projects[i].name.as_str()) as u64 + 1;
        if mine > count {
            count = mine;
        }
        i += 1;
    }
    assert(ps.take(i as int) =~= ps);
    let mut out: Vec<Vec<Vec<GhaUnit>>> = Vec::new();
    let mut l: u64 = 0;
    let k: usize = if opts.units_per_job == 0 {
        1
    } else {
        opts.units_per_job
    };
    assert(views3(out@) =~= Seq::empty());
    while l < count
        invariant
            l <= count <= u32::MAX as u64 + 1,
            ps == project_views(projects@),
            layers@ == layers_of(ps),
            k == per_job(*opts),
            views3(out@) == buckets(ps, opt_text(*base), changed@, *opts, l as nat),
        decreases count - l,
    {
        let ghost before = views3(out@);
        let units = collect_layer(projects.as_slice(), &layers, base, changed, l as u32);
        let cells = chunk_units(&units, k);
        let mut more = chunk_cells(&cells, opts.max_units_per_layer);
        let ghost mv = views3(more@);
        out.append(&mut more);
        assert(views3(out@) =~= before + mv);
        l += 1;
    }
    out
}

/// Generates the matrix.
///
/// The units of a layer are sorted by name and packed into cells; a layer with too many cells is
/// split into several. It is an error if there are more layers than allowed.
pub fn generate_gha(
    projects: &[Project],
    base_dir: &Option<String>,
    changed: &NameSet,
    filter_unchanged: bool,
    opts: &GhaOptions,
) -> (res: Result<Vec<GhaCell>, String>)
    requires
        projects@.len() <= u32::MAX,
    ensures
        ({
            let layers = gha_layers(
                project_views(projects@),
                opt_text(*base_dir),
                changed@,
                filter_unchanged,
                *opts,
            );
            match res {
                Ok(cells) => (opts.max_layers is Some ==> layers.len() <= opts.max_layers->0) && cell_views(cells@)
                    == matrix_cells(layers),
                Err(m) => opts.max_layers is Some && layers.len() > opts.max_layers->0 && m@ == too_deep(
                    layers.len(),
                    opts.max_layers->0 as nat,
                ),
            }
        }),
{
    let kept = if filter_unchanged {
        keep_changed(projects, changed)
    } else {
        copy_projects(projects)
    };
    let mut layers = build_layers(&kept, base_dir, changed, opts);
    let ghost views = views3(layers@);
    assert(views.len() == layers@.len());
    match opts.max_layers {
        Some(max) => {
            if layers.len() > max {
                let x = concat("the graph needs ", decimal_text(layers.len() as u64).as_str());
                let y = concat(x.as_str(), " layers, but at most ");
                let z = concat(y.as_str(), decimal_text(max as u64).as_str());
                return Err(concat(z.as_str(), " are allowed"));
            }
        },
        None => {},
    }
    let mut out: Vec<GhaCell> = Vec::new();
    let mut i: usize = 0;
    assert(views.take(0) =~= Seq::empty());
    assert(cell_views(out@) =~= Seq::empty());
    while i < layers.len()
        invariant
            i <= layers@.len(),
            views == views3(layers@),
            cell_views(out@) == matrix_cells(views.take(i as int)),
        decreases layers@.len() - i,
    {
        let ghost before = cell_views(out@);
        let ghost now = views.take(i + 1);
        let layer: u32 = i as u32;
        let ghost mine = now.last().map_values(|units: Seq<GhaUnitView>| cell_of(units, layer));
        proof {
            assert(now.drop_last() =~= views.take(i as int));
            assert(now.last() == views2(layers@[i as int]@));
            assert(matrix_cells(now) == matrix_cells(now.drop_last()) + mine);
        }
        let cells = &layers[i];
        let mut k: usize = 0;
        assert(before + mine.take(0) =~= before);
        while k < cells.len()
            invariant
                k <= cells@.len(),
                mine == views2(cells@).map_values(|units: Seq<GhaUnitView>| cell_of(units, layer)),
                cell_views(out@) == before + mine.take(k as int),
            decreases cells@.len() - k,
        {
            let ghost had = cell_views(out@);
            let units = copy_units(&cells[k], 0, cells[k].len());
            proof {
                let all = gha_views(cells@[k as int]@);
                assert(all.subrange(0, all.len() as int) =~= all);
            }
            let cell = make_cell(units, layer);
            let ghost cv = cell@;
            out.push(cell);
            proof {
                assert(cell_views(out@) =~= had.push(cv));
                assert(mine[k as int] == cv);
                assert(before + mine.take(k + 1) =~= had.push(cv));
            }
            k += 1;
        }
        assert(mine.take(k as int) =~= mine);
        i += 1;
    }
    assert(views.take(i as int) =~= views);
    Ok(out)
}

// --------------------------------------------------------------------- entries

/// An entry of the matrix as it is put out.
#[derive(Debug, PartialEq, Eq)]
pub enum GhaEntry {
    /// A unit and its layer
    Single { unit: GhaUnit, layer: u32 },
    /// A job with a list of units
    Packed(GhaCell),
}

pub enum GhaEntryView {
    Single { unit: GhaUnitView, layer: u32 },
    Packed(GhaCellView),
}

impl View for GhaEntry {
    type V = GhaEntryView;

    open spec fn view(&self) -> GhaEntryView {
        match self {
            GhaEntry::Single { unit, layer } => GhaEntryView::Single { unit: unit@, layer: *layer },
            GhaEntry::Packed(cell) => GhaEntryView::Packed(cell@),
        }
    }
}

/// The views of entries.
pub open spec fn entry_views(entries: Seq<GhaEntry>) -> Seq<GhaEntryView> {
    entries.map_values(|e: GhaEntry| e@)
}

/// The entries of the units of a cell.
pub open spec fn unit_entries(cell: GhaCellView) -> Seq<GhaEntryView> {
    cell.units.map_values(|u: GhaUnitView| GhaEntryView::Single { unit: u, layer: cell.layer })
}

/// The entries of the units of all cells.
pub open spec fn single_entries(cells: Seq<GhaCellView>) -> Seq<GhaEntryView>
    decreases cells.len(),
{
    if cells.len() == 0 {
        Seq::empty()
    } else {
        single_entries(cells.drop_last()) + unit_entries(cells.last())
    }
}

/// The entries of the matrix: jobs where units are packed, however many units a job holds, and
/// else units.
pub open spec fn entries_of(cells: Seq<GhaCellView>, opts: GhaOptions) -> Seq<GhaEntryView> {
    if opts.units_per_job > 1 {
        cells.map_values(|c: GhaCellView| GhaEntryView::Packed(c))
    } else {
        single_entries(cells)
    }
}

/// The entries that a matrix is put out with. The shape is decided by the options, not by the cell,
/// so all entries have the same keys.
pub fn matrix_entries(cells: Vec<GhaCell>, opts: &GhaOptions) -> (res: Vec<GhaEntry>)
    ensures
        entry_views(res@) == entries_of(cell_views(cells@), *opts),
{
    let mut out: Vec<GhaEntry> = Vec::new();
    let ghost all = cell_views(cells@);
    let mut i: usize = 0;
    if opts.units_per_job > 1 {
        while i < cells.len()
            invariant
                i <= cells@.len(),
                all == cell_views(cells@),
                out@.len() == i,
                forall|j: int| 0 <= j < i ==> (#[trigger] out@[j])@ == GhaEntryView::Packed(all[j]),
            decreases cells@.len() - i,
        {
            let c = &cells[i];
            let units = copy_units(&c.units, 0, c.units.len());
            proof {
                let whole = gha_views(c.units@);
                assert(whole.subrange(0, whole.len() as int) =~= whole);
            }
            let cell = GhaCell { name: c.name.clone(), layer: c.layer, changed: c.changed, units };
            assert(cell@ == all[i as int]);
            out.push(GhaEntry::Packed(cell));
            i += 1;
        }
        assert(entry_views(out@) =~= entries_of(all, *opts));
        return out;
    }
    assert(entry_views(out@) =~= single_entries(all.take(0)));
    while i < cells.len()
        invariant
            i <= cells@.len(),
            all == cell_views(cells@),
            entry_views(out@) == single_entries(all.take(i as int)),
        decreases cells@.len() - i,
    {
        let ghost before = entry_views(out@);
        let c = &cells[i];
        let ghost mine = unit_entries(c@);
        let mut k: usize = 0;
        assert(before + mine.take(0) =~= before);
        while k < c.units.len()
            invariant
                k <= c.units@.len(),
                mine == unit_entries(c@),
                entry_views(out@) == before + mine.take(k as int),
            decreases c.units@.len() - k,
        {
            let ghost had = entry_views(out@);
            let unit = c.units[k].clone();
            let e = GhaEntry::Single { unit, layer: c.layer };
            assert(e@ == mine[k as int]);
            out.push(e);
            assert(entry_views(out@) =~= had.push(mine[k as int]));
            assert(before + mine.take(k + 1) =~= had.push(mine[k as int]));
            k += 1;
        }
        proof {
            assert(mine.take(k as int) =~= mine);
            assert(all.take(i + 1).drop_last() =~= all.take(i as int));
            assert(all.take(i + 1).last() == c@);
        }
        i += 1;
    }
    assert(all.take(i as int) =~= all);
    out
}

// ------------------------------------------------------------------------- laws

/// The layer of the graph that each layer of the matrix is made from.
pub open spec fn origins(
    projects: Seq<ProjectView>,
    base: Option<Seq<char>>,
    changed: Seq<Seq<char>>,
    opts: GhaOptions,
    n: nat,
) -> Seq<nat>
    decreases n,
{
    if n == 0 {
        Seq::empty()
    } else {
        let units = layer_units(projects, projects, base, changed, (n - 1) as nat);
        let chunks = chunked(chunked(units, per_job(opts)), opts.max_units_per_layer as nat);
        origins(projects, base, changed, opts, (n - 1) as nat) + Seq::new(chunks.len(), |i: int| (n - 1) as nat)
    }
}

/// No layer of the matrix is empty or wider than asked for, and no cell is empty or larger than
/// asked for.
pub proof fn law_matrix_is_narrow(
    projects: Seq<ProjectView>,
    base: Option<Seq<char>>,
    changed: Seq<Seq<char>>,
    opts: GhaOptions,
    n: nat,
    b: int,
    c: int,
)
    requires
        0 <= b < buckets(projects, base, changed, opts, n).len(),
    ensures
        buckets(projects, base, changed, opts, n)[b].len() > 0,
        opts.max_units_per_layer > 0 ==> buckets(projects, base, changed, opts, n)[b].len() <= opts.max_units_per_layer,
        0 <= c < buckets(projects, base, changed, opts, n)[b].len() ==> 0 < buckets(
            projects,
            base,
            changed,
            opts,
            n,
        )[b][c].len() <= per_job(opts),
    decreases n,
{
    let before = buckets(projects, base, changed, opts, (n - 1) as nat);
    let units = layer_units(projects, projects, base, changed, (n - 1) as nat);
    let cells = chunked(units, per_job(opts));
    let chunks = chunked(cells, opts.max_units_per_layer as nat);
    let all = buckets(projects, base, changed, opts, n);
    if b < before.len() {
        assert(all[b] == before[b]);
        law_matrix_is_narrow(projects, base, changed, opts, (n - 1) as nat, b, c);
    } else {
        let k = b - before.len();
        assert(all[b] == chunks[k]);
        law_chunks(units, per_job(opts));
        law_chunks(cells, opts.max_units_per_layer as nat);
        if 0 <= c < all[b].len() {
            lemma_chunk_is_from(cells, opts.max_units_per_layer as nat, k, c);
            let m = choose|m: int| 0 <= m < cells.len() && cells[m] == chunks[k][c];
            assert(cells[m].len() > 0);
        }
    }
}

proof fn lemma_chunk_is_from<T>(s: Seq<T>, k: nat, i: int, j: int)
    requires
        0 <= i < chunked(s, k).len(),
        0 <= j < chunked(s, k)[i].len(),
    ensures
        exists|m: int| 0 <= m < s.len() && #[trigger] s[m] == chunked(s, k)[i][j],
    decreases s.len(),
{
    if s.len() > 0 {
        if k == 0 || s.len() <= k {
            assert(s[j] == chunked(s, k)[i][j]);
        } else if i == 0 {
            assert(s[j] == chunked(s, k)[i][j]);
        } else {
            let rest = s.skip(k as int);
            assert(chunked(s, k)[i] == chunked(rest, k)[i - 1]);
            lemma_chunk_is_from(rest, k, i - 1, j);
            let m = choose|m: int| 0 <= m < rest.len() && #[trigger] rest[m] == chunked(rest, k)[i - 1][j];
            assert(s[m + k] == rest[m]);
        }
    }
}

/// The layers of the matrix come in the order of the layers of the graph: what a layer of the
/// matrix holds is of one layer of the graph, and of no earlier one than the layers before it.
pub proof fn law_layers_stay_in_order(
    projects: Seq<ProjectView>,
    base: Option<Seq<char>>,
    changed: Seq<Seq<char>>,
    opts: GhaOptions,
    n: nat,
)
    ensures
        origins(projects, base, changed, opts, n).len() == buckets(projects, base, changed, opts, n).len(),
        forall|a: int, b: int|
            0 <= a <= b < origins(projects, base, changed, opts, n).len() ==> #[trigger] origins(
                projects,
                base,
                changed,
                opts,
                n,
            )[a] <= #[trigger] origins(projects, base, changed, opts, n)[b],
        forall|b: int| 0 <= b < origins(projects, base, changed, opts, n).len() ==> #[trigger] origins(
            projects,
            base,
            changed,
            opts,
            n,
        )[b] < n,
        forall|b: int, c: int, u: int|
            #![trigger buckets(projects, base, changed, opts, n)[b][c][u]]
            0 <= b < buckets(projects, base, changed, opts, n).len() && 0 <= c < buckets(projects, base, changed, opts, n)[b].len()
                && 0 <= u < buckets(projects, base, changed, opts, n)[b][c].len() ==> layer_units(
                projects,
                projects,
                base,
                changed,
                origins(projects, base, changed, opts, n)[b],
            ).contains(buckets(projects, base, changed, opts, n)[b][c][u]),
    decreases n,
{
    if n > 0 {
        let m = (n - 1) as nat;
        law_layers_stay_in_order(projects, base, changed, opts, m);
        let before = buckets(projects, base, changed, opts, m);
        let from = origins(projects, base, changed, opts, m);
        let units = layer_units(projects, projects, base, changed, m);
        let cells = chunked(units, per_job(opts));
        let chunks = chunked(cells, opts.max_units_per_layer as nat);
        let all = buckets(projects, base, changed, opts, n);
        let now = origins(projects, base, changed, opts, n);
        assert forall|a: int, b: int| 0 <= a <= b < now.len() implies #[trigger] now[a] <= #[trigger] now[b] by {
            if b < from.len() {
                assert(now[a] == from[a] && now[b] == from[b]);
            } else if a < from.len() {
                assert(now[a] == from[a]);
                assert(from[a] < m);
            }
        }
        assert forall|b: int| 0 <= b < now.len() implies #[trigger] now[b] < n by {
            if b < from.len() {
                assert(now[b] == from[b]);
            }
        }
        assert forall|b: int, c: int, u: int|
            #![trigger all[b][c][u]]
            0 <= b < all.len() && 0 <= c < all[b].len() && 0 <= u < all[b][c].len() implies layer_units(
            projects,
            projects,
            base,
            changed,
            now[b],
        ).contains(all[b][c][u]) by {
            if b < before.len() {
                assert(all[b] == before[b]);
                assert(now[b] == from[b]);
                assert(before[b][c][u] == all[b][c][u]);
            } else {
                let k = b - before.len();
                assert(all[b] == chunks[k]);
                lemma_chunk_is_from(cells, opts.max_units_per_layer as nat, k, c);
                let x = choose|x: int| 0 <= x < cells.len() && #[trigger] cells[x] == chunks[k][c];
                lemma_chunk_is_from(units, per_job(opts), x, u);
                let y = choose|y: int| 0 <= y < units.len() && #[trigger] units[y] == cells[x][u];
                assert(units[y] == all[b][c][u]);
            }
        }
    }
}

/// A unit runs in a later layer of the matrix than the units that it depends on; so the units of one
/// layer are independent of each other. Here `earlier` is a layer of the matrix that holds units of
/// the graph's layer of the dependency, and `later` one for that of the dependent.
pub proof fn law_matrix_runs_dependencies_first(
    projects: Seq<ProjectView>,
    base: Option<Seq<char>>,
    changed: Seq<Seq<char>>,
    opts: GhaOptions,
    n: nat,
    i: int,
    k: int,
    earlier: int,
    later: int,
)
    requires
        projects.len() <= u32::MAX,
        distinct_names(projects),
        0 <= i < projects.len(),
        settled_names(projects).contains(projects[i].name),
        0 <= k < known_names(projects, projects[i].project_dependencies).len(),
        0 <= earlier < buckets(projects, base, changed, opts, n).len(),
        0 <= later < buckets(projects, base, changed, opts, n).len(),
        origins(projects, base, changed, opts, n)[earlier] == layers_of(projects)[known_names(
            projects,
            projects[i].project_dependencies,
        )[k]],
        origins(projects, base, changed, opts, n)[later] == layers_of(projects)[projects[i].name],
    ensures
        earlier < later,
{
    law_dependencies_run_first(projects, i, k);
    law_layers_stay_in_order(projects, base, changed, opts, n);
    if later <= earlier {
        assert(origins(projects, base, changed, opts, n)[later] <= origins(projects, base, changed, opts, n)[earlier]);
    }
}

/// How many units go into one cell changes nothing about the depth of the matrix, where wide layers
/// are not split.
pub proof fn law_packing_keeps_depth(
    projects: Seq<ProjectView>,
    base: Option<Seq<char>>,
    changed: Seq<Seq<char>>,
    filter_unchanged: bool,
    opts: GhaOptions,
    other: GhaOptions,
)
    requires
        opts.max_units_per_layer == 0,
        other.max_units_per_layer == 0,
    ensures
        gha_layers(projects, base, changed, filter_unchanged, opts).len() == gha_layers(
            projects,
            base,
            changed,
            filter_unchanged,
            other,
        ).len(),
{
    let kept = if filter_unchanged {
        changed_only(projects, changed)
    } else {
        projects
    };
    lemma_packing(kept, base, changed, opts, other, layer_count(kept, kept));
}

proof fn lemma_packing(
    projects: Seq<ProjectView>,
    base: Option<Seq<char>>,
    changed: Seq<Seq<char>>,
    opts: GhaOptions,
    other: GhaOptions,
    n: nat,
)
    requires
        opts.max_units_per_layer == 0,
        other.max_units_per_layer == 0,
    ensures
        buckets(projects, base, changed, opts, n).len() == buckets(projects, base, changed, other, n).len(),
    decreases n,
{
    if n > 0 {
        lemma_packing(projects, base, changed, opts, other, (n - 1) as nat);
        let units = layer_units(projects, projects, base, changed, (n - 1) as nat);
        law_chunks(units, per_job(opts));
        law_chunks(units, per_job(other));
    }
}

/// The units of a layer are sorted by name.
pub proof fn law_layer_is_sorted(
    projects: Seq<ProjectView>,
    all: Seq<ProjectView>,
    base: Option<Seq<char>>,
    changed: Seq<Seq<char>>,
    layer: nat,
)
    ensures
        forall|i: int, j: int|
            0 <= i < j < layer_units(projects, all, base, changed, layer).len() ==> !precedes(
                (#[trigger] layer_units(projects, all, base, changed, layer)[j]).name,
                (#[trigger] layer_units(projects, all, base, changed, layer)[i]).name,
            ),
    decreases projects.len(),
{
    if projects.len() > 0 {
        law_layer_is_sorted(projects.drop_last(), all, base, changed, layer);
        let before = layer_units(projects.drop_last(), all, base, changed, layer);
        let p = projects.last();
        if layers_of(all)[p.name] == layer {
            let u = unit_view(p, base, changed);
            let k = place_by_name(before, u);
            lemma_place_bounds(before, u);
            let now = before.insert(k, u);
            assert forall|i: int, j: int| 0 <= i < j < now.len() implies !precedes(
                (#[trigger] now[j]).name,
                (#[trigger] now[i]).name,
            ) by {
                if i == k {
                    assert(now[j] == before[j - 1]);
                    if k < before.len() {
                        if precedes(before[j - 1].name, u.name) {
                            crate::text::lemma_precedes_transitive(before[j - 1].name, u.name, before[k].name);
                            if j - 1 > k {
                                assert(!precedes(before[j - 1].name, before[k].name));
                            } else {
                                crate::text::lemma_precedes_irreflexive(before[k].name);
                            }
                        }
                    }
                } else if j == k {
                    assert(now[i] == before[i]);
                } else {
                    let i0 = if i < k { i } else { i - 1 };
                    let j0 = if j < k { j } else { j - 1 };
                    assert(now[i] == before[i0] && now[j] == before[j0]);
                }
            }
        }
    }
}

proof fn lemma_place_bounds(units: Seq<GhaUnitView>, u: GhaUnitView)
    ensures
        0 <= place_by_name(units, u) <= units.len(),
        forall|j: int| 0 <= j < place_by_name(units, u) ==> !precedes(u.name, (#[trigger] units[j]).name),
        place_by_name(units, u) < units.len() ==> precedes(u.name, units[place_by_name(units, u)].name),
    decreases units.len(),
{
    if units.len() > 0 && !precedes(u.name, units[0].name) {
        lemma_place_bounds(units.skip(1), u);
        let k = place_by_name(units.skip(1), u);
        assert forall|j: int| 0 <= j < k + 1 implies !precedes(u.name, (#[trigger] units[j]).name) by {
            if j > 0 {
                assert(units.skip(1)[j - 1] == units[j]);
            }
        }
        if k + 1 < units.len() {
            assert(units.skip(1)[k] == units[k + 1]);
        }
    }
}

/// The units of the first `n` layers, one layer after the other.
spec fn layers_in_a_row(
    projects: Seq<ProjectView>,
    all: Seq<ProjectView>,
    base: Option<Seq<char>>,
    changed: Seq<Seq<char>>,
    n: nat,
) -> Seq<GhaUnitView>
    decreases n,
{
    if n == 0 {
        Seq::empty()
    } else {
        layers_in_a_row(projects, all, base, changed, (n - 1) as nat) + layer_units(
            projects,
            all,
            base,
            changed,
            (n - 1) as nat,
        )
    }
}

proof fn lemma_row_adds_one(
    projects: Seq<ProjectView>,
    all: Seq<ProjectView>,
    base: Option<Seq<char>>,
    changed: Seq<Seq<char>>,
    n: nat,
)
    requires
        projects.len() > 0,
    ensures
        layers_in_a_row(projects, all, base, changed, n).to_multiset() == (if layers_of(all)[projects.last().name] < n {
            layers_in_a_row(projects.drop_last(), all, base, changed, n).to_multiset().insert(
                unit_view(projects.last(), base, changed),
            )
        } else {
            layers_in_a_row(projects.drop_last(), all, base, changed, n).to_multiset()
        }),
    decreases n,
{
    broadcast use vstd::seq_lib::group_to_multiset_ensures;

    if n > 0 {
        let m = (n - 1) as nat;
        lemma_row_adds_one(projects, all, base, changed, m);
        let old_row = layers_in_a_row(projects.drop_last(), all, base, changed, m);
        let new_row = layers_in_a_row(projects, all, base, changed, m);
        let old_last = layer_units(projects.drop_last(), all, base, changed, m);
        let new_last = layer_units(projects, all, base, changed, m);
        let u = unit_view(projects.last(), base, changed);
        vstd::seq_lib::lemma_multiset_commutative(old_row, old_last);
        vstd::seq_lib::lemma_multiset_commutative(new_row, new_last);
        if layers_of(all)[projects.last().name] == m {
            let k = place_by_name(old_last, u);
            lemma_place_bounds(old_last, u);
            assert(new_last == old_last.insert(k, u));
            vstd::seq_lib::to_multiset_insert(old_last, k, u);
            assert(new_last.to_multiset() =~= old_last.to_multiset().insert(u));
            assert(new_row.to_multiset().add(new_last.to_multiset()) =~= old_row.to_multiset().add(
                old_last.to_multiset(),
            ).insert(u));
        } else {
            assert(new_last == old_last);
            if layers_of(all)[projects.last().name] < m {
                assert(new_row.to_multiset().add(new_last.to_multiset()) =~= old_row.to_multiset().add(
                    old_last.to_multiset(),
                ).insert(u));
            }
        }
    } else {
        assert(layers_in_a_row(projects, all, base, changed, n) =~= layers_in_a_row(
            projects.drop_last(),
            all,
            base,
            changed,
            n,
        ));
    }
}

proof fn lemma_row_of_none(all: Seq<ProjectView>, base: Option<Seq<char>>, changed: Seq<Seq<char>>, n: nat)
    ensures
        layers_in_a_row(Seq::empty(), all, base, changed, n) == Seq::<GhaUnitView>::empty(),
    decreases n,
{
    if n > 0 {
        lemma_row_of_none(all, base, changed, (n - 1) as nat);
        assert(layers_in_a_row(Seq::empty(), all, base, changed, n) =~= Seq::<GhaUnitView>::empty());
    }
}

proof fn lemma_layer_below_count(projects: Seq<ProjectView>, all: Seq<ProjectView>, i: int)
    requires
        0 <= i < projects.len(),
    ensures
        layers_of(all)[projects[i].name] < layer_count(projects, all),
    decreases projects.len(),
{
    if i < projects.len() - 1 {
        assert(projects.drop_last()[i] == projects[i]);
        lemma_layer_below_count(projects.drop_last(), all, i);
    }
}

proof fn lemma_row_holds_all(
    projects: Seq<ProjectView>,
    all: Seq<ProjectView>,
    base: Option<Seq<char>>,
    changed: Seq<Seq<char>>,
    n: nat,
)
    requires
        forall|i: int| 0 <= i < projects.len() ==> layers_of(all)[(#[trigger] projects[i]).name] < n,
    ensures
        layers_in_a_row(projects, all, base, changed, n).to_multiset() == projects.map_values(
            |p: ProjectView| unit_view(p, base, changed),
        ).to_multiset(),
    decreases projects.len(),
{
    broadcast use vstd::seq_lib::group_to_multiset_ensures;

    let f = |p: ProjectView| unit_view(p, base, changed);
    if projects.len() == 0 {
        assert(projects =~= Seq::empty());
        lemma_row_of_none(all, base, changed, n);
        assert(projects.map_values(f) =~= Seq::empty());
    } else {
        let rest = projects.drop_last();
        assert forall|i: int| 0 <= i < rest.len() implies layers_of(all)[(#[trigger] rest[i]).name] < n by {
            assert(rest[i] == projects[i]);
        }
        lemma_row_holds_all(rest, all, base, changed, n);
        assert(layers_of(all)[projects[projects.len() - 1].name] < n);
        lemma_row_adds_one(projects, all, base, changed, n);
        assert(projects.map_values(f) =~= rest.map_values(f).push(f(projects.last())));
        assert(rest.map_values(f).push(f(projects.last())).to_multiset() =~= rest.map_values(f).to_multiset().insert(
            f(projects.last()),
        ));
    }
}

proof fn lemma_buckets_are_the_row(
    projects: Seq<ProjectView>,
    base: Option<Seq<char>>,
    changed: Seq<Seq<char>>,
    opts: GhaOptions,
    n: nat,
)
    ensures
        flattened(flattened(buckets(projects, base, changed, opts, n))) == layers_in_a_row(
            projects,
            projects,
            base,
            changed,
            n,
        ),
    decreases n,
{
    if n == 0 {
        let none = buckets(projects, base, changed, opts, n);
        assert(flattened(none) =~= Seq::empty());
        assert(flattened(flattened(none)) =~= Seq::empty());
    } else {
        let m = (n - 1) as nat;
        lemma_buckets_are_the_row(projects, base, changed, opts, m);
        let before = buckets(projects, base, changed, opts, m);
        let units = layer_units(projects, projects, base, changed, m);
        let cells = chunked(units, per_job(opts));
        let chunks = chunked(cells, opts.max_units_per_layer as nat);
        law_chunks(units, per_job(opts));
        law_chunks(cells, opts.max_units_per_layer as nat);
        lemma_flattened_concat(before, chunks);
        lemma_flattened_concat(flattened(before), cells);
    }
}

/// Every unit is in the matrix once, and nothing else is.
pub proof fn law_every_unit_once(
    projects: Seq<ProjectView>,
    base: Option<Seq<char>>,
    changed: Seq<Seq<char>>,
    opts: GhaOptions,
)
    ensures
        flattened(flattened(gha_layers(projects, base, changed, false, opts))).to_multiset() == projects.map_values(
            |p: ProjectView| unit_view(p, base, changed),
        ).to_multiset(),
{
    let n = layer_count(projects, projects);
    lemma_buckets_are_the_row(projects, base, changed, opts, n);
    assert forall|i: int| 0 <= i < projects.len() implies layers_of(projects)[(#[trigger] projects[i]).name] < n by {
        lemma_layer_below_count(projects, projects, i);
    }
    lemma_row_holds_all(projects, projects, base, changed, n);
}

proof fn lemma_flattened_long<T>(chunks: Seq<Seq<T>>)
    requires
        forall|i: int| 0 <= i < chunks.len() ==> (#[trigger] chunks[i]).len() > 0,
    ensures
        chunks.len() <= flattened(chunks).len(),
    decreases chunks.len(),
{
    if chunks.len() > 0 {
        let rest = chunks.drop_last();
        assert forall|i: int| 0 <= i < rest.len() implies (#[trigger] rest[i]).len() > 0 by {
            assert(rest[i] == chunks[i]);
        }
        lemma_flattened_long(rest);
        assert(chunks[chunks.len() - 1].len() > 0);
    }
}

proof fn lemma_flattened_from<T>(chunks: Seq<Seq<T>>, m: int)
    requires
        0 <= m < flattened(chunks).len(),
    ensures
        exists|i: int, j: int|
            0 <= i < chunks.len() && 0 <= j < chunks[i].len() && #[trigger] chunks[i][j] == flattened(chunks)[m],
    decreases chunks.len(),
{
    let rest = chunks.drop_last();
    if m < flattened(rest).len() {
        lemma_flattened_from(rest, m);
        let (i, j) = choose|i: int, j: int|
            0 <= i < rest.len() && 0 <= j < rest[i].len() && #[trigger] rest[i][j] == flattened(rest)[m];
        assert(chunks[i][j] == flattened(chunks)[m]);
    } else {
        assert(chunks[chunks.len() - 1][m - flattened(rest).len()] == flattened(chunks)[m]);
    }
}

/// One of the cells is in layer `l`.
pub open spec fn is_used(cells: Seq<GhaCellView>, l: int) -> bool {
    exists|c: int| 0 <= c < cells.len() && (#[trigger] cells[c]).layer == l
}

proof fn lemma_layer_numbers(layers: Seq<Seq<Seq<GhaUnitView>>>)
    requires
        layers.len() <= u32::MAX,
        forall|i: int| 0 <= i < layers.len() ==> (#[trigger] layers[i]).len() > 0,
    ensures
        forall|l: int| 0 <= l < layers.len() <==> #[trigger] is_used(matrix_cells(layers), l),
    decreases layers.len(),
{
    let all = matrix_cells(layers);
    if layers.len() > 0 {
        let rest = layers.drop_last();
        let before = matrix_cells(rest);
        let last = (layers.len() - 1) as u32;
        assert forall|i: int| 0 <= i < rest.len() implies (#[trigger] rest[i]).len() > 0 by {
            assert(rest[i] == layers[i]);
        }
        lemma_layer_numbers(rest);
        assert(layers[layers.len() - 1].len() > 0);
        assert(all[before.len() as int].layer == last);
        assert forall|l: int| 0 <= l < layers.len() <==> #[trigger] is_used(all, l) by {
            assert(0 <= l < rest.len() <==> is_used(before, l));
            if 0 <= l < rest.len() {
                let c = choose|c: int| 0 <= c < before.len() && (#[trigger] before[c]).layer == l;
                assert(all[c].layer == l);
            }
            if is_used(all, l) {
                let c = choose|c: int| 0 <= c < all.len() && (#[trigger] all[c]).layer == l;
                if c < before.len() {
                    assert(before[c].layer == l);
                } else {
                    assert(all[c].layer == last);
                }
            }
        }
    }
}

/// The layers are numbered from 0 without gaps, also where unchanged units are dropped: there is a
/// cell for each number below the depth of the matrix, and none for any other.
pub proof fn law_layers_have_no_gaps(
    projects: Seq<ProjectView>,
    base: Option<Seq<char>>,
    changed: Seq<Seq<char>>,
    filter_unchanged: bool,
    opts: GhaOptions,
)
    requires
        projects.len() <= u32::MAX,
    ensures
        ({
            let layers = gha_layers(projects, base, changed, filter_unchanged, opts);
            forall|l: int| 0 <= l < layers.len() <==> #[trigger] is_used(matrix_cells(layers), l)
        }),
{
    let kept = if filter_unchanged {
        changed_only(projects, changed)
    } else {
        projects
    };
    lemma_changed_only_shorter(projects, changed);
    let n = layer_count(kept, kept);
    let layers = gha_layers(kept, base, changed, false, opts);
    assert forall|i: int| 0 <= i < layers.len() implies (#[trigger] layers[i]).len() > 0 by {
        law_matrix_is_narrow(kept, base, changed, opts, n, i, 0);
    }
    lemma_flattened_long(layers);
    let cells = flattened(layers);
    assert forall|m: int| 0 <= m < cells.len() implies (#[trigger] cells[m]).len() > 0 by {
        lemma_flattened_from(layers, m);
        let (i, j) = choose|i: int, j: int|
            0 <= i < layers.len() && 0 <= j < layers[i].len() && #[trigger] layers[i][j] == cells[m];
        law_matrix_is_narrow(kept, base, changed, opts, n, i, j);
    }
    lemma_flattened_long(cells);
    law_every_unit_once(kept, base, changed, opts);
    let units = kept.map_values(|p: ProjectView| unit_view(p, base, changed));
    flattened(cells).to_multiset_ensures();
    units.to_multiset_ensures();
    lemma_layer_numbers(layers);
}

proof fn lemma_changed_only_shorter(projects: Seq<ProjectView>, changed: Seq<Seq<char>>)
    ensures
        changed_only(projects, changed).len() <= projects.len(),
    decreases projects.len(),
{
    if projects.len() > 0 {
        lemma_changed_only_shorter(projects.drop_last(), changed);
    }
}

/// Where unchanged units are dropped, what is left is what is changed, in its order.
pub proof fn law_filtered_units_are_changed(projects: Seq<ProjectView>, changed: Seq<Seq<char>>, p: ProjectView)
    ensures
        changed_only(projects, changed).contains(p) <==> projects.contains(p) && changed.contains(p.dir),
    decreases projects.len(),
{
    if projects.len() > 0 {
        let rest = projects.drop_last();
        let before = changed_only(rest, changed);
        let now = changed_only(projects, changed);
        law_filtered_units_are_changed(rest, changed, p);
        if now.contains(p) {
            let k = choose|k: int| 0 <= k < now.len() && now[k] == p;
            if k < before.len() {
                assert(before[k] == p);
                let m = choose|m: int| 0 <= m < rest.len() && rest[m] == p;
                assert(projects[m] == p);
            } else {
                assert(projects[projects.len() - 1] == p);
            }
        }
        if projects.contains(p) && changed.contains(p.dir) {
            let k = choose|k: int| 0 <= k < projects.len() && projects[k] == p;
            if k < rest.len() {
                assert(rest[k] == p);
                let m = choose|m: int| 0 <= m < before.len() && before[m] == p;
                assert(now[m] == p);
            } else {
                assert(now[before.len() as int] == p);
            }
        }
    }
}

/// All entries of a matrix have one shape.
pub proof fn law_entries_have_one_shape(cells: Seq<GhaCellView>, opts: GhaOptions, i: int)
    requires
        0 <= i < entries_of(cells, opts).len(),
    ensures
        entries_of(cells, opts)[i] is Packed <==> opts.units_per_job > 1,
    decreases cells.len(),
{
    if opts.units_per_job <= 1 {
        let before = single_entries(cells.drop_last());
        if i < before.len() {
            assert(entries_of(cells.drop_last(), opts)[i] == entries_of(cells, opts)[i]);
            law_entries_have_one_shape(cells.drop_last(), opts, i);
        }
    }
}

/// Where units are not packed, there is one entry for each cell: its unit, in its layer.
pub proof fn law_one_entry_for_each_cell(
    projects: Seq<ProjectView>,
    base: Option<Seq<char>>,
    changed: Seq<Seq<char>>,
    opts: GhaOptions,
)
    requires
        opts.units_per_job <= 1,
    ensures
        ({
            let cells = matrix_cells(gha_layers(projects, base, changed, false, opts));
            entries_of(cells, opts) == cells.map_values(
                |c: GhaCellView| GhaEntryView::Single { unit: c.units[0], layer: c.layer },
            )
        }),
{
    let n = layer_count(projects, projects);
    let layers = gha_layers(projects, base, changed, false, opts);
    let cells = matrix_cells(layers);
    assert forall|b: int, c: int| 0 <= b < layers.len() && 0 <= c < layers[b].len() implies (
    #[trigger] layers[b][c]).len() == 1 by {
        law_matrix_is_narrow(projects, base, changed, opts, n, b, c);
    }
    lemma_cells_single(layers);
    lemma_single_entries(cells);
}

proof fn lemma_cells_single(layers: Seq<Seq<Seq<GhaUnitView>>>)
    requires
        forall|b: int, c: int| 0 <= b < layers.len() && 0 <= c < layers[b].len() ==> (#[trigger] layers[b][c]).len() == 1,
    ensures
        forall|i: int| 0 <= i < matrix_cells(layers).len() ==> (#[trigger] matrix_cells(layers)[i]).units.len() == 1,
    decreases layers.len(),
{
    if layers.len() > 0 {
        let rest = layers.drop_last();
        let before = matrix_cells(rest);
        let all = matrix_cells(layers);
        assert forall|b: int, c: int| 0 <= b < rest.len() && 0 <= c < rest[b].len() implies (
        #[trigger] rest[b][c]).len() == 1 by {
            assert(layers[b][c] == rest[b][c]);
        }
        lemma_cells_single(rest);
        assert forall|i: int| 0 <= i < all.len() implies (#[trigger] all[i]).units.len() == 1 by {
            if i < before.len() {
                assert(all[i] == before[i]);
            } else {
                assert(layers[layers.len() - 1][i - before.len()].len() == 1);
            }
        }
    }
}

proof fn lemma_single_entries(cells: Seq<GhaCellView>)
    requires
        forall|i: int| 0 <= i < cells.len() ==> (#[trigger] cells[i]).units.len() == 1,
    ensures
        single_entries(cells) == cells.map_values(
            |c: GhaCellView| GhaEntryView::Single { unit: c.units[0], layer: c.layer },
        ),
    decreases cells.len(),
{
    let f = |c: GhaCellView| GhaEntryView::Single { unit: c.units[0], layer: c.layer };
    if cells.len() > 0 {
        let rest = cells.drop_last();
        assert forall|i: int| 0 <= i < rest.len() implies (#[trigger] rest[i]).units.len() == 1 by {
            assert(rest[i] == cells[i]);
        }
        lemma_single_entries(rest);
        assert(cells[cells.len() - 1].units.len() == 1);
        assert(unit_entries(cells.last()) =~= seq![f(cells.last())]);
    }
    assert(single_entries(cells) =~= cells.map_values(f));
}

/// No two projects have one name in the matrix.
pub open spec fn distinct_unit_names(projects: Seq<ProjectView>, base: Option<Seq<char>>) -> bool {
    forall|i: int, j: int|
        0 <= i < projects.len() && 0 <= j < projects.len() && name_for((#[trigger] projects[i]).dir, base) == name_for(
            (#[trigger] projects[j]).dir,
            base,
        ) ==> i == j
}

proof fn lemma_changed_only_distinct(projects: Seq<ProjectView>, base: Option<Seq<char>>, changed: Seq<Seq<char>>)
    requires
        distinct_names(projects),
        distinct_unit_names(projects, base),
    ensures
        distinct_names(changed_only(projects, changed)),
        distinct_unit_names(changed_only(projects, changed), base),
    decreases projects.len(),
{
    if projects.len() > 0 {
        let rest = projects.drop_last();
        let before = changed_only(rest, changed);
        let now = changed_only(projects, changed);
        let p = projects.last();
        assert forall|i: int, j: int|
            0 <= i < rest.len() && 0 <= j < rest.len() && (#[trigger] rest[i]).name == (
            #[trigger] rest[j]).name implies i == j by {
            assert(projects[i] == rest[i] && projects[j] == rest[j]);
        }
        assert forall|i: int, j: int|
            0 <= i < rest.len() && 0 <= j < rest.len() && name_for((#[trigger] rest[i]).dir, base) == name_for(
                (#[trigger] rest[j]).dir,
                base,
            ) implies i == j by {
            assert(projects[i] == rest[i] && projects[j] == rest[j]);
        }
        lemma_changed_only_distinct(rest, base, changed);
        assert forall|i: int| 0 <= i < before.len() implies (#[trigger] before[i]).name != p.name && name_for(
            before[i].dir,
            base,
        ) != name_for(p.dir, base) by {
            law_filtered_units_are_changed(rest, changed, before[i]);
            assert(before.contains(before[i]));
            let k = choose|k: int| 0 <= k < rest.len() && rest[k] == before[i];
            assert(projects[k] == before[i]);
            assert(projects[projects.len() - 1] == p);
        }
        assert forall|i: int, j: int|
            0 <= i < now.len() && 0 <= j < now.len() && (#[trigger] now[i]).name == (
            #[trigger] now[j]).name implies i == j by {
            if i < before.len() {
                assert(now[i] == before[i]);
            }
            if j < before.len() {
                assert(now[j] == before[j]);
            }
        }
        assert forall|i: int, j: int|
            0 <= i < now.len() && 0 <= j < now.len() && name_for((#[trigger] now[i]).dir, base) == name_for(
                (#[trigger] now[j]).dir,
                base,
            ) implies i == j by {
            if i < before.len() {
                assert(now[i] == before[i]);
            }
            if j < before.len() {
                assert(now[j] == before[j]);
            }
        }
    }
}

/// A project in the layer has the unit.
pub open spec fn is_unit_of(
    projects: Seq<ProjectView>,
    all: Seq<ProjectView>,
    base: Option<Seq<char>>,
    changed: Seq<Seq<char>>,
    layer: nat,
    u: GhaUnitView,
) -> bool {
    exists|i: int|
        0 <= i < projects.len() && layers_of(all)[(#[trigger] projects[i]).name] == layer && unit_view(
            projects[i],
            base,
            changed,
        ) == u
}

proof fn lemma_layer_holds(
    projects: Seq<ProjectView>,
    all: Seq<ProjectView>,
    base: Option<Seq<char>>,
    changed: Seq<Seq<char>>,
    layer: nat,
    u: GhaUnitView,
)
    ensures
        layer_units(projects, all, base, changed, layer).contains(u) <==> is_unit_of(
            projects,
            all,
            base,
            changed,
            layer,
            u,
        ),
    decreases projects.len(),
{
    let now = layer_units(projects, all, base, changed, layer);
    if projects.len() > 0 {
        let rest = projects.drop_last();
        let before = layer_units(rest, all, base, changed, layer);
        let p = projects.last();
        let v = unit_view(p, base, changed);
        lemma_layer_holds(rest, all, base, changed, layer, u);
        lemma_place_bounds(before, v);
        let k = place_by_name(before, v);
        if now.contains(u) {
            let m = choose|m: int| 0 <= m < now.len() && now[m] == u;
            if layers_of(all)[p.name] == layer {
                if m == k {
                    assert(projects[projects.len() - 1] == p);
                } else {
                    assert(before[if m < k { m } else { m - 1 }] == u);
                }
            } else {
                assert(before.contains(u));
            }
            if before.contains(u) {
                let i = choose|i: int|
                    0 <= i < rest.len() && layers_of(all)[(#[trigger] rest[i]).name] == layer && unit_view(
                        rest[i],
                        base,
                        changed,
                    ) == u;
                assert(projects[i] == rest[i]);
            }
        }
        if is_unit_of(projects, all, base, changed, layer, u) {
            let i = choose|i: int|
                0 <= i < projects.len() && layers_of(all)[(#[trigger] projects[i]).name] == layer && unit_view(
                    projects[i],
                    base,
                    changed,
                ) == u;
            if i < rest.len() {
                assert(rest[i] == projects[i]);
                let m = choose|m: int| 0 <= m < before.len() && before[m] == u;
                if layers_of(all)[p.name] == layer {
                    assert(now[if m < k { m } else { m + 1 }] == u);
                } else {
                    assert(now[m] == u);
                }
            } else {
                assert(now[k] == u);
            }
        }
    }
}

/// The units come in the order of their names, and no name comes twice.
spec fn strictly_by_name(units: Seq<GhaUnitView>) -> bool {
    forall|i: int, j: int|
        0 <= i < j < units.len() ==> precedes((#[trigger] units[i]).name, (#[trigger] units[j]).name)
}

proof fn lemma_layer_strictly_sorted(
    projects: Seq<ProjectView>,
    all: Seq<ProjectView>,
    base: Option<Seq<char>>,
    changed: Seq<Seq<char>>,
    layer: nat,
)
    requires
        distinct_unit_names(projects, base),
    ensures
        strictly_by_name(layer_units(projects, all, base, changed, layer)),
    decreases projects.len(),
{
    if projects.len() > 0 {
        let rest = projects.drop_last();
        let before = layer_units(rest, all, base, changed, layer);
        let now = layer_units(projects, all, base, changed, layer);
        let p = projects.last();
        let u = unit_view(p, base, changed);
        assert forall|i: int, j: int|
            0 <= i < rest.len() && 0 <= j < rest.len() && name_for((#[trigger] rest[i]).dir, base) == name_for(
                (#[trigger] rest[j]).dir,
                base,
            ) implies i == j by {
            assert(projects[i] == rest[i] && projects[j] == rest[j]);
        }
        lemma_layer_strictly_sorted(rest, all, base, changed, layer);
        if layers_of(all)[p.name] == layer {
            law_layer_is_sorted(projects, all, base, changed, layer);
            let k = place_by_name(before, u);
            lemma_place_bounds(before, u);
            assert forall|m: int| 0 <= m < before.len() implies (#[trigger] before[m]).name != u.name by {
                lemma_layer_holds(rest, all, base, changed, layer, before[m]);
                assert(before.contains(before[m]));
                let i = choose|i: int|
                    0 <= i < rest.len() && layers_of(all)[(#[trigger] rest[i]).name] == layer && unit_view(
                        rest[i],
                        base,
                        changed,
                    ) == before[m];
                assert(projects[i] == rest[i]);
                assert(projects[projects.len() - 1] == p);
            }
            assert forall|i: int, j: int| 0 <= i < j < now.len() implies precedes(
                (#[trigger] now[i]).name,
                (#[trigger] now[j]).name,
            ) by {
                crate::text::lemma_precedes_total(now[i].name, now[j].name);
                if i == k {
                    assert(now[j] == before[j - 1]);
                } else if j == k {
                    assert(now[i] == before[i]);
                } else {
                    let i0 = if i < k { i } else { i - 1 };
                    let j0 = if j < k { j } else { j - 1 };
                    assert(now[i] == before[i0] && now[j] == before[j0]);
                }
            }
        }
    }
}

proof fn lemma_sorted_alike(x: Seq<GhaUnitView>, y: Seq<GhaUnitView>)
    requires
        strictly_by_name(x),
        strictly_by_name(y),
        forall|u: GhaUnitView| #[trigger] x.contains(u) <==> y.contains(u),
    ensures
        x == y,
    decreases x.len(),
{
    if x.len() == 0 {
        if y.len() > 0 {
            assert(y.contains(y[0]));
            assert(x.contains(y[0]));
        }
        assert(x =~= y);
    } else {
        let a = x.last();
        assert(x.contains(a));
        let j = choose|j: int| 0 <= j < y.len() && y[j] == a;
        let b = y.last();
        assert(y.contains(b));
        assert(x.contains(b));
        let i = choose|i: int| 0 <= i < x.len() && x[i] == b;
        if i < x.len() - 1 {
            assert(precedes(x[i].name, x[x.len() - 1].name));
            if j < y.len() - 1 {
                assert(precedes(y[j].name, y[y.len() - 1].name));
                crate::text::lemma_precedes_transitive(a.name, b.name, a.name);
            }
            crate::text::lemma_precedes_irreflexive(a.name);
        }
        assert(a == b);
        let xs = x.drop_last();
        let ys = y.drop_last();
        assert forall|i: int, j: int| 0 <= i < j < xs.len() implies precedes(
            (#[trigger] xs[i]).name,
            (#[trigger] xs[j]).name,
        ) by {
            assert(xs[i] == x[i] && xs[j] == x[j]);
        }
        assert forall|i: int, j: int| 0 <= i < j < ys.len() implies precedes(
            (#[trigger] ys[i]).name,
            (#[trigger] ys[j]).name,
        ) by {
            assert(ys[i] == y[i] && ys[j] == y[j]);
        }
        assert forall|u: GhaUnitView| #[trigger] xs.contains(u) <==> ys.contains(u) by {
            if xs.contains(u) {
                lemma_front_moves(x, y, u);
            }
            if ys.contains(u) {
                lemma_front_moves(y, x, u);
            }
        }
        lemma_sorted_alike(xs, ys);
        assert(x =~= xs.push(a));
        assert(y =~= ys.push(b));
    }
}

proof fn lemma_front_moves(x: Seq<GhaUnitView>, y: Seq<GhaUnitView>, u: GhaUnitView)
    requires
        strictly_by_name(x),
        x.len() > 0,
        y.len() > 0,
        x.last() == y.last(),
        forall|u: GhaUnitView| #[trigger] x.contains(u) ==> y.contains(u),
        x.drop_last().contains(u),
    ensures
        y.drop_last().contains(u),
{
    let xs = x.drop_last();
    let m = choose|m: int| 0 <= m < xs.len() && xs[m] == u;
    assert(x[m] == u);
    assert(x.contains(u));
    let k = choose|k: int| 0 <= k < y.len() && y[k] == u;
    assert(precedes(x[m].name, x[x.len() - 1].name));
    crate::text::lemma_precedes_irreflexive(u.name);
    assert(k < y.len() - 1);
    assert(y.drop_last()[k] == u);
}

proof fn lemma_count_within(a: Seq<ProjectView>, b: Seq<ProjectView>, part: Seq<ProjectView>)
    requires
        layers_of(a) == layers_of(b),
        forall|p: ProjectView| #[trigger] part.contains(p) ==> b.contains(p),
    ensures
        layer_count(part, a) <= layer_count(b, b),
    decreases part.len(),
{
    if part.len() > 0 {
        let rest = part.drop_last();
        assert forall|p: ProjectView| #[trigger] rest.contains(p) implies b.contains(p) by {
            let i = choose|i: int| 0 <= i < rest.len() && rest[i] == p;
            assert(part[i] == p);
            assert(part.contains(p));
        }
        lemma_count_within(a, b, rest);
        let p = part.last();
        assert(part[part.len() - 1] == p);
        assert(part.contains(p));
        let j = choose|j: int| 0 <= j < b.len() && b[j] == p;
        lemma_layer_below_count(b, b, j);
    }
}

proof fn lemma_layer_reordered(
    a: Seq<ProjectView>,
    b: Seq<ProjectView>,
    base: Option<Seq<char>>,
    changed: Seq<Seq<char>>,
    layer: nat,
)
    requires
        same_projects(a, b),
        layers_of(a) == layers_of(b),
        distinct_unit_names(a, base),
        distinct_unit_names(b, base),
    ensures
        layer_units(a, a, base, changed, layer) == layer_units(b, b, base, changed, layer),
{
    let x = layer_units(a, a, base, changed, layer);
    let y = layer_units(b, b, base, changed, layer);
    lemma_layer_strictly_sorted(a, a, base, changed, layer);
    lemma_layer_strictly_sorted(b, b, base, changed, layer);
    assert forall|u: GhaUnitView| #[trigger] x.contains(u) <==> y.contains(u) by {
        lemma_layer_holds(a, a, base, changed, layer, u);
        lemma_layer_holds(b, b, base, changed, layer, u);
        if x.contains(u) {
            let i = choose|i: int|
                0 <= i < a.len() && layers_of(a)[(#[trigger] a[i]).name] == layer && unit_view(a[i], base, changed) == u;
            assert(a.contains(a[i]));
            assert(b.contains(a[i]));
            let j = choose|j: int| 0 <= j < b.len() && b[j] == a[i];
            assert(layers_of(b)[b[j].name] == layer);
        }
        if y.contains(u) {
            let i = choose|i: int|
                0 <= i < b.len() && layers_of(b)[(#[trigger] b[i]).name] == layer && unit_view(b[i], base, changed) == u;
            assert(b.contains(b[i]));
            assert(a.contains(b[i]));
            let j = choose|j: int| 0 <= j < a.len() && a[j] == b[i];
            assert(layers_of(a)[a[j].name] == layer);
        }
    }
    lemma_sorted_alike(x, y);
}

proof fn lemma_buckets_reordered(
    a: Seq<ProjectView>,
    b: Seq<ProjectView>,
    base: Option<Seq<char>>,
    changed: Seq<Seq<char>>,
    opts: GhaOptions,
    n: nat,
)
    requires
        same_projects(a, b),
        layers_of(a) == layers_of(b),
        distinct_unit_names(a, base),
        distinct_unit_names(b, base),
    ensures
        buckets(a, base, changed, opts, n) == buckets(b, base, changed, opts, n),
    decreases n,
{
    if n > 0 {
        lemma_buckets_reordered(a, b, base, changed, opts, (n - 1) as nat);
        lemma_layer_reordered(a, b, base, changed, (n - 1) as nat);
    }
}

proof fn lemma_distinct_dirs(projects: Seq<ProjectView>, base: Option<Seq<char>>)
    requires
        distinct_unit_names(projects, base),
    ensures
        distinct_dirs(projects),
{
    assert forall|i: int, j: int|
        0 <= i < projects.len() && 0 <= j < projects.len() && (#[trigger] projects[i]).dir == (
        #[trigger] projects[j]).dir implies i == j by {
        assert(name_for(projects[i].dir, base) == name_for(projects[j].dir, base));
    }
}

/// A unit lands in the same cell on every run: the matrix does not depend on the order in which the
/// projects come.
pub proof fn law_matrix_in_any_order(
    a: Seq<ProjectView>,
    b: Seq<ProjectView>,
    base: Option<Seq<char>>,
    changed: Seq<Seq<char>>,
    filter_unchanged: bool,
    opts: GhaOptions,
)
    requires
        a.len() <= u32::MAX,
        b.len() <= u32::MAX,
        same_projects(a, b),
        distinct_names(a),
        distinct_names(b),
        distinct_unit_names(a, base),
        distinct_unit_names(b, base),
    ensures
        gha_layers(a, base, changed, filter_unchanged, opts) == gha_layers(b, base, changed, filter_unchanged, opts),
{
    let (x, y) = if filter_unchanged {
        (changed_only(a, changed), changed_only(b, changed))
    } else {
        (a, b)
    };
    if filter_unchanged {
        lemma_changed_only_shorter(a, changed);
        lemma_changed_only_shorter(b, changed);
        lemma_changed_only_distinct(a, base, changed);
        lemma_changed_only_distinct(b, base, changed);
        assert forall|p: ProjectView| #[trigger] x.contains(p) <==> y.contains(p) by {
            law_filtered_units_are_changed(a, changed, p);
            law_filtered_units_are_changed(b, changed, p);
        }
    }
    lemma_distinct_dirs(x, base);
    lemma_distinct_dirs(y, base);
    law_layers_in_any_order(x, y);
    lemma_count_within(x, y, x);
    lemma_count_within(y, x, y);
    lemma_buckets_reordered(x, y, base, changed, opts, layer_count(x, x));
}

/// A unit in the matrix has the name and the directory of its project, written from the base, the names of its dependencies
/// in their order, and is marked as changed exactly where its directory is among the changed ones.
pub proof fn law_unit_shows_its_project(p: ProjectView, base: Option<Seq<char>>, changed: Seq<Seq<char>>, k: int)
    ensures
        ({
            let u = unit_view(p, base, changed);
            &&& u.name == name_for(p.dir, base)
            &&& u.working_directory == relative_to(p.dir, base)
            &&& u.dependencies.len() == p.project_dependencies.len()
            &&& 0 <= k < p.project_dependencies.len() ==> u.dependencies[k] == name_for(p.project_dependencies[k], base)
            &&& u.changed <==> exists|i: int| 0 <= i < changed.len() && #[trigger] changed[i] == p.dir
        }),
{
    if changed.contains(p.dir) {
        let i = choose|i: int| 0 <= i < changed.len() && changed[i] == p.dir;
        assert(changed[i] == p.dir);
    }
    if exists|i: int| 0 <= i < changed.len() && #[trigger] changed[i] == p.dir {
        let i = choose|i: int| 0 <= i < changed.len() && #[trigger] changed[i] == p.dir;
        assert(changed.contains(p.dir));
    }
}

/// A cell is changed exactly where one of its units is; a cell of one unit is called as the unit, and any other as its first
/// unit with the number of the others.
pub proof fn law_cell_shows_its_units(units: Seq<GhaUnitView>, layer: u32)
    requires
        units.len() > 0,
    ensures
        cell_of(units, layer).units == units,
        cell_of(units, layer).layer == layer,
        cell_of(units, layer).changed <==> exists|i: int| 0 <= i < units.len() && (#[trigger] units[i]).changed,
        units.len() == 1 ==> cell_of(units, layer).name == units[0].name,
        units.len() > 1 ==> cell_of(units, layer).name == units[0].name + " (+"@ + decimal((units.len() - 1) as nat) + " more)"@,
{
}

/// Each cell of each layer is in the matrix, with the number of its layer, and the layers come in turn.
pub proof fn law_cells_of_layers(layers: Seq<Seq<Seq<GhaUnitView>>>, more: Seq<Seq<GhaUnitView>>, c: int)
    requires
        layers.len() < u32::MAX,
    ensures
        matrix_cells(Seq::empty()).len() == 0,
        matrix_cells(layers.push(more)).len() == matrix_cells(layers).len() + more.len(),
        matrix_cells(layers.push(more)).take(matrix_cells(layers).len() as int) == matrix_cells(layers),
        0 <= c < more.len() ==> ({
            let cell = matrix_cells(layers.push(more))[matrix_cells(layers).len() + c];
            cell.layer == layers.len() && cell.units == more[c]
        }),
{
    let all = layers.push(more);
    assert(all.drop_last() =~= layers);
    let before = matrix_cells(layers);
    let added = more.map_values(|units: Seq<GhaUnitView>| cell_of(units, (all.len() - 1) as u32));
    assert(matrix_cells(all) == before + added);
    assert((before + added).take(before.len() as int) =~= before);
    if 0 <= c < more.len() {
        assert((before + added)[before.len() + c] == added[c]);
    }
}

/// To drop unchanged units is to make the matrix of the changed ones alone; a cell holds as many units as asked for, and one
/// where none is asked for.
pub proof fn law_filter_and_size(
    projects: Seq<ProjectView>,
    base: Option<Seq<char>>,
    changed: Seq<Seq<char>>,
    opts: GhaOptions,
)
    ensures
        gha_layers(projects, base, changed, true, opts) == gha_layers(
            changed_only(projects, changed),
            base,
            changed,
            false,
            opts,
        ),
        opts.units_per_job == 0 ==> per_job(opts) == 1,
        opts.units_per_job > 0 ==> per_job(opts) == opts.units_per_job,
{
}

/// Where units are packed, each cell is one entry, in its place; where they are not, each unit of each cell is.
pub proof fn law_entries_show_cells(cells: Seq<GhaCellView>, cell: GhaCellView, opts: GhaOptions, i: int)
    ensures
        opts.units_per_job > 1 ==> entries_of(cells, opts).len() == cells.len(),
        opts.units_per_job > 1 && 0 <= i < cells.len() ==> entries_of(cells, opts)[i] == GhaEntryView::Packed(cells[i]),
        opts.units_per_job <= 1 ==> entries_of(cells.push(cell), opts).len() == entries_of(cells, opts).len()
            + cell.units.len(),
        opts.units_per_job <= 1 && 0 <= i < cell.units.len() ==> entries_of(cells.push(cell), opts)[entries_of(
            cells,
            opts,
        ).len() + i] == (GhaEntryView::Single { unit: cell.units[i], layer: cell.layer }),
        entries_of(Seq::empty(), opts).len() == 0,
{
    assert(cells.push(cell).drop_last() =~= cells);
}

/// A layer of the graph holds each of its projects.
pub proof fn law_layer_holds_its_projects(
    projects: Seq<ProjectView>,
    all: Seq<ProjectView>,
    base: Option<Seq<char>>,
    changed: Seq<Seq<char>>,
    layer: nat,
    p: ProjectView,
)
    requires
        projects.contains(p),
        layers_of(all)[p.name] == layer,
    ensures
        layer_units(projects, all, base, changed, layer).contains(unit_view(p, base, changed)),
    decreases projects.len(),
{
    let i = choose|i: int| 0 <= i < projects.len() && projects[i] == p;
    let rest = projects.drop_last();
    let before = layer_units(rest, all, base, changed, layer);
    let u = unit_view(projects.last(), base, changed);
    let k = place_by_name(before, u);
    lemma_place_bounds(before, u);
    let now = layer_units(projects, all, base, changed, layer);
    if i < rest.len() {
        assert(rest[i] == p);
        law_layer_holds_its_projects(rest, all, base, changed, layer, p);
        let v = unit_view(p, base, changed);
        let m = choose|m: int| 0 <= m < before.len() && before[m] == v;
        if layers_of(all)[projects.last().name] == layer {
            if m < k {
                assert(now[m] == v);
            } else {
                assert(now[m + 1] == v);
            }
        }
    } else {
        assert(now[k] == u);
    }
}

} // verus!
