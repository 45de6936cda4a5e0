//! Execution order: which projects can run together, and which must wait for others.

#[allow(unused_imports)]
use crate::graph::{
    has_source_in, is_closed_walk, is_walk, leads_to_cycle, lemma_stuck_leads_to_cycle, lemma_turned_arc, reaches,
    steps_on, turned,
};
use crate::project::Project;
#[allow(unused_imports)]
use crate::project::{project_views, ProjectView};
#[allow(unused_imports)]
use crate::text::texts;
use vstd::hash_map::StringHashMap;
use vstd::prelude::*;

verus! {

/// The layers that have been given out, by project name.
pub type Layers = Map<Seq<char>, u32>;

/// The name of the last project in the directory `dir`.
pub open spec fn name_of_dir(projects: Seq<ProjectView>, dir: Seq<char>) -> Option<Seq<char>>
    decreases projects.len(),
{
    if projects.len() == 0 {
        None
    } else if projects.last().dir == dir {
        Some(projects.last().name)
    } else {
        name_of_dir(projects.drop_last(), dir)
    }
}

/// The names of the dependencies that are projects themselves, in order.
pub open spec fn known_names(projects: Seq<ProjectView>, deps: Seq<Seq<char>>) -> Seq<Seq<char>>
    decreases deps.len(),
{
    if deps.len() == 0 {
        Seq::empty()
    } else {
        let before = known_names(projects, deps.drop_last());
        match name_of_dir(projects, deps.last()) {
            Some(name) => before.push(name),
            None => before,
        }
    }
}

/// Every one of `names` has its layer.
pub open spec fn all_settled(layers: Layers, names: Seq<Seq<char>>) -> bool {
    forall|i: int| 0 <= i < names.len() ==> layers.contains_key(#[trigger] names[i])
}

/// One above the highest layer of `names`; 0 where there are no names.
pub open spec fn layer_above(layers: Layers, names: Seq<Seq<char>>) -> int
    decreases names.len(),
{
    if names.len() == 0 {
        0
    } else {
        let before = layer_above(layers, names.drop_last());
        let this = layers[names.last()] + 1;
        if before < this {
            this
        } else {
            before
        }
    }
}

/// The layers, with that of `p` where it can be told and is not yet there.
pub open spec fn settle(projects: Seq<ProjectView>, layers: Layers, p: ProjectView) -> Layers {
    let names = known_names(projects, p.project_dependencies);
    if !layers.contains_key(p.name) && all_settled(layers, names) {
        layers.insert(p.name, layer_above(layers, names) as u32)
    } else {
        layers
    }
}

/// The layers after the first `n` projects have been looked at once, in order.
pub open spec fn pass(projects: Seq<ProjectView>, layers: Layers, n: nat) -> Layers
    decreases n,
{
    if n == 0 {
        layers
    } else {
        settle(projects, pass(projects, layers, (n - 1) as nat), projects[n - 1])
    }
}

/// The layers after `n` passes over all projects.
pub open spec fn passes(projects: Seq<ProjectView>, n: nat) -> Layers
    decreases n,
{
    if n == 0 {
        Map::empty()
    } else {
        pass(projects, passes(projects, (n - 1) as nat), projects.len())
    }
}

/// The layers, with layer 0 for each project that has none.
pub open spec fn with_rest(projects: Seq<ProjectView>, layers: Layers) -> Layers
    decreases projects.len(),
{
    if projects.len() == 0 {
        layers
    } else {
        let before = with_rest(projects.drop_last(), layers);
        let name = projects.last().name;
        if before.contains_key(name) {
            before
        } else {
            before.insert(name, 0)
        }
    }
}

/// The layers of the projects: as many passes as there are projects settle all that can be
/// settled; the rest (circular dependencies) goes to layer 0.
pub open spec fn layers_of(projects: Seq<ProjectView>) -> Layers {
    with_rest(projects, passes(projects, projects.len()))
}

/// `s` holds the names of some of the projects.
spec fn named_by(projects: Seq<ProjectView>, s: Set<Seq<char>>) -> bool {
    forall|t: Seq<char>| #[trigger]
        s.contains(t) ==> exists|i: int| 0 <= i < projects.len() && projects[i].name == t
}

proof fn lemma_named_by_len(projects: Seq<ProjectView>, s: Set<Seq<char>>)
    requires
        named_by(projects, s),
        s.finite(),
    ensures
        s.len() <= projects.len(),
{
    let all = projects.map_values(|p: ProjectView| p.name);
    assert forall|t: Seq<char>| s.contains(t) implies all.to_set().contains(t) by {
        let i = choose|i: int| 0 <= i < projects.len() && projects[i].name == t;
        assert(all[i] == t);
    }
    all.lemma_cardinality_of_set();
    vstd::set_lib::lemma_len_subset(s, all.to_set());
}

/// Every layer is below the number of layers given out.
spec fn bounded(layers: Layers) -> bool {
    layers.dom().finite() && forall|t: Seq<char>| #[trigger]
        layers.contains_key(t) ==> layers[t] < layers.dom().len()
}

proof fn lemma_layer_above_bound(layers: Layers, names: Seq<Seq<char>>)
    requires
        bounded(layers),
        all_settled(layers, names),
    ensures
        0 <= layer_above(layers, names) <= layers.dom().len(),
    decreases names.len(),
{
    if names.len() > 0 {
        assert(layers.contains_key(names[names.len() - 1]));
        assert forall|i: int| 0 <= i < names.drop_last().len() implies layers.contains_key(
            #[trigger] names.drop_last()[i],
        ) by {
            assert(names.drop_last()[i] == names[i]);
        }
        lemma_layer_above_bound(layers, names.drop_last());
    }
}

proof fn lemma_settle_bounded(projects: Seq<ProjectView>, layers: Layers, p: ProjectView)
    requires
        bounded(layers),
        named_by(projects, layers.dom()),
        projects.len() <= u32::MAX,
        projects.contains(p),
    ensures
        bounded(settle(projects, layers, p)),
        named_by(projects, settle(projects, layers, p).dom()),
        !layers.contains_key(p.name) && all_settled(layers, known_names(projects, p.project_dependencies)) ==> {
            &&& 0 <= layer_above(layers, known_names(projects, p.project_dependencies)) < projects.len()
        },
{
    let names = known_names(projects, p.project_dependencies);
    if !layers.contains_key(p.name) && all_settled(layers, names) {
        let after = settle(projects, layers, p);
        lemma_layer_above_bound(layers, names);
        assert(after.dom() =~= layers.dom().insert(p.name));
        assert forall|t: Seq<char>| #[trigger] after.dom().contains(t) implies exists|i: int|
            0 <= i < projects.len() && projects[i].name == t by {
            if t == p.name {
                let i = choose|i: int| 0 <= i < projects.len() && projects[i] == p;
                assert(projects[i].name == t);
            } else {
                assert(layers.dom().contains(t));
            }
        }
        lemma_named_by_len(projects, after.dom());
        assert(layer_above(layers, names) < projects.len());
        assert forall|t: Seq<char>| #[trigger] after.contains_key(t) implies after[t] < after.dom().len() by {
            if t != p.name {
                assert(layers.contains_key(t));
            }
        }
    }
}

/// `m` holds the project names by directory.
spec fn maps_dirs(m: Map<Seq<char>, String>, projects: Seq<ProjectView>) -> bool {
    forall|d: Seq<char>|
        (#[trigger] m.contains_key(d) <==> name_of_dir(projects, d) is Some) && (m.contains_key(d) ==> m[d]@
            == name_of_dir(projects, d)->0)
}

/// The project names by directory.
fn names_by_dir(projects: &[Project]) -> (res: StringHashMap<String>)
    ensures
        maps_dirs(res@, project_views(projects@)),
{
    let mut out: StringHashMap<String> = StringHashMap::new();
    let ghost all = project_views(projects@);
    let mut i: usize = 0;
    while i < projects.len()
        invariant
            i <= projects@.len(),
            all == project_views(projects@),
            maps_dirs(out@, all.take(i as int)),
        decreases projects@.len() - i,
    {
        proof {
            assert(all.take(i + 1).drop_last() =~= all.take(i as int));
            assert(all.take(i + 1).last() == projects@[i as int]@);
        }
        out.insert(projects[i].dir.clone(), projects[i].name.clone());
        i += 1;
    }
    assert(all.take(i as int) =~= all);
    out
}

/// The layer of a project with the given dependencies, where it can be told.
fn try_layer(
    projects: &[Project],
    names: &StringHashMap<String>,
    layers: &StringHashMap<u32>,
    deps: &Vec<String>,
) -> (res: Option<u32>)
    requires
        maps_dirs(names@, project_views(projects@)),
        bounded(layers@),
        layers@.dom().len() <= projects@.len() <= u32::MAX,
        all_settled(layers@, known_names(project_views(projects@), texts(deps@))) ==> layer_above(
            layers@,
            known_names(project_views(projects@), texts(deps@)),
        ) < projects@.len(),
    ensures
        ({
            let known = known_names(project_views(projects@), texts(deps@));
            match res {
                Some(layer) => all_settled(layers@, known) && layer == layer_above(layers@, known),
                None => !all_settled(layers@, known),
            }
        }),
{
    let ghost ps = project_views(projects@);
    let ghost all = texts(deps@);
    let mut above: u64 = 0;
    let mut i: usize = 0;
    assert(all.take(0) =~= Seq::<Seq<char>>::empty());
    while i < deps.len()
        invariant
            ps == project_views(projects@),
            all == texts(deps@),
            i <= deps@.len(),
            maps_dirs(names@, ps),
            all_settled(layers@, known_names(ps, all.take(i as int))),
            above == layer_above(layers@, known_names(ps, all.take(i as int))),
        decreases deps@.len() - i,
    {
        let ghost seen = known_names(ps, all.take(i as int));
        let ghost more = known_names(ps, all.take(i + 1));
        proof {
            assert(all.take(i + 1).drop_last() =~= all.take(i as int));
            assert(all.take(i + 1).last() == deps@[i as int]@);
        }
        match names.get(deps[i].as_str()) {
            Some(name) => {
                proof {
                    assert(names@.contains_key(all[i as int]));
                    assert(more == seen.push(name@));
                    assert(more.drop_last() =~= seen);
                }
                match layers.get(name.as_str()) {
                    Some(layer) => {
                        let this: u64 = *layer as u64 + 1;
                        if above < this {
                            above = this;
                        }
                        proof {
                            assert forall|k: int| 0 <= k < more.len() implies layers@.contains_key(
                                #[trigger] more[k],
                            ) by {
                                if k < seen.len() {
                                    assert(more[k] == seen[k]);
                                }
                            }
                        }
                    },
                    None => {
                        proof {
                            lemma_known_prefix(ps, all, i + 1);
                            let full = known_names(ps, all);
                            assert(full[seen.len() as int] == more[seen.len() as int]);
                            assert(!layers@.contains_key(full[seen.len() as int]));
                        }
                        return None;
                    },
                }
            },
            None => {},
        }
        i += 1;
    }
    assert(all.take(i as int) =~= all);
    Some(above as u32)
}

proof fn lemma_known_prefix(projects: Seq<ProjectView>, deps: Seq<Seq<char>>, k: int)
    requires
        0 <= k <= deps.len(),
    ensures
        known_names(projects, deps.take(k)).len() <= known_names(projects, deps).len(),
        forall|i: int|
            0 <= i < known_names(projects, deps.take(k)).len() ==> #[trigger] known_names(projects, deps.take(k))[i]
                == known_names(projects, deps)[i],
    decreases deps.len(),
{
    if k == deps.len() {
        assert(deps.take(k) =~= deps);
    } else {
        assert(deps.drop_last().take(k) =~= deps.take(k));
        lemma_known_prefix(projects, deps.drop_last(), k);
    }
}

proof fn lemma_passes_stable(projects: Seq<ProjectView>, r: nat, n: nat)
    requires
        r <= n,
        pass(projects, passes(projects, r), projects.len()) == passes(projects, r),
    ensures
        passes(projects, n) == passes(projects, r),
    decreases n,
{
    if r < n {
        lemma_passes_stable(projects, r, (n - 1) as nat);
    }
}

/// Looks at each project once; whether a layer was given out.
fn one_pass(projects: &[Project], names: &StringHashMap<String>, layers: &mut StringHashMap<u32>) -> (changed: bool)
    requires
        maps_dirs(names@, project_views(projects@)),
        bounded(old(layers)@),
        named_by(project_views(projects@), old(layers)@.dom()),
        projects@.len() <= u32::MAX,
    ensures
        final(layers)@ == pass(project_views(projects@), old(layers)@, projects@.len()),
        bounded(final(layers)@),
        named_by(project_views(projects@), final(layers)@.dom()),
        changed ==> final(layers)@.dom().len() > old(layers)@.dom().len(),
        !changed ==> final(layers)@ == old(layers)@,
{
    let ghost ps = project_views(projects@);
    let mut changed = false;
    let mut i: usize = 0;
    while i < projects.len()
        invariant
            i <= projects@.len() <= u32::MAX,
            ps == project_views(projects@),
            maps_dirs(names@, ps),
            bounded(layers@),
            named_by(ps, layers@.dom()),
            layers@ == pass(ps, old(layers)@, i as nat),
            changed ==> layers@.dom().len() > old(layers)@.dom().len(),
            !changed ==> layers@ == old(layers)@,
        decreases projects@.len() - i,
    {
        let p = &projects[i];
        proof {
            assert(ps[i as int] == p@);
            lemma_settle_bounded(ps, layers@, p@);
            lemma_named_by_len(ps, layers@.dom());
        }
        if !layers.contains_key(p.name.as_str()) {
            match try_layer(projects, names, layers, &p.project_dependencies) {
                Some(layer) => {
                    let ghost before = layers@;
                    layers.insert(p.name.clone(), layer);
                    changed = true;
                    assert(layers@.dom() =~= before.dom().insert(p.name@));
                },
                None => {},
            }
        }
        i += 1;
    }
    changed
}

/// Computes execution order layers from project dependencies: a map from project name to layer.
///
/// Layer 0 = no dependencies (can run first, in parallel).
/// Layer N = depends only on projects in layers 0..N-1.
///
/// Dependencies are directories; one that is the directory of no project does not count.
/// Projects on or behind a circular dependency get layer 0.
pub fn compute_layers(projects: &[Project]) -> (res: StringHashMap<u32>)
    requires
        projects@.len() <= u32::MAX,
    ensures
        res@ == layers_of(project_views(projects@)),
{
    let ghost ps = project_views(projects@);
    let names = names_by_dir(projects);
    let mut layers: StringHashMap<u32> = StringHashMap::new();
    let ghost mut r: nat = 0;
    let mut changed = true;
    while changed
        invariant
            ps == project_views(projects@),
            projects@.len() <= u32::MAX,
            maps_dirs(names@, ps),
            bounded(layers@),
            named_by(ps, layers@.dom()),
            layers@ == passes(ps, r),
            r <= layers@.dom().len(),
            !changed ==> pass(ps, layers@, ps.len()) == layers@,
        decreases ps.len() - layers@.dom().len() + (if changed { 1int } else { 0 }),
    {
        let ghost before = layers@;
        changed = one_pass(projects, &names, &mut layers);
        proof {
            lemma_named_by_len(ps, before.dom());
            lemma_named_by_len(ps, layers@.dom());
            if changed {
                r = r + 1;
            }
        }
    }
    proof {
        lemma_named_by_len(ps, layers@.dom());
        lemma_passes_stable(ps, r, ps.len());
    }
    let ghost settled = layers@;
    let mut i: usize = 0;
    assert(ps.take(0) =~= Seq::<ProjectView>::empty());
    while i < projects.len()
        invariant
            i <= projects@.len(),
            ps == project_views(projects@),
            layers@ == with_rest(ps.take(i as int), settled),
        decreases projects@.len() - i,
    {
        proof {
            assert(ps.take(i + 1).drop_last() =~= ps.take(i as int));
            assert(ps.take(i + 1).last() == projects@[i as int]@);
        }
        if !layers.contains_key(projects[i].name.as_str()) {
            layers.insert(projects[i].name.clone(), 0);
        }
        i += 1;
    }
    assert(ps.take(i as int) =~= ps);
    layers
}

// ------------------------------------------------------------------------- laws

/// The names of the projects whose layer follows from their dependencies.
pub open spec fn settled_names(projects: Seq<ProjectView>) -> Set<Seq<char>> {
    passes(projects, projects.len()).dom()
}

/// No two projects have one name.
pub open spec fn distinct_names(projects: Seq<ProjectView>) -> bool {
    forall|i: int, j: int|
        0 <= i < projects.len() && 0 <= j < projects.len() && (#[trigger] projects[i]).name == (#[trigger] projects[j]).name
            ==> i == j
}

/// `small` is a part of `large`.
spec fn part_of(small: Layers, large: Layers) -> bool {
    forall|t: Seq<char>| #[trigger]
        small.contains_key(t) ==> large.contains_key(t) && large[t] == small[t]
}

/// Each layer was told from the layers of the dependencies.
spec fn told(projects: Seq<ProjectView>, layers: Layers) -> bool {
    &&& bounded(layers)
    &&& named_by(projects, layers.dom())
    &&& forall|i: int|
        0 <= i < projects.len() && layers.contains_key((#[trigger] projects[i]).name) ==> {
            let names = known_names(projects, projects[i].project_dependencies);
            all_settled(layers, names) && layers[projects[i].name] == layer_above(layers, names)
        }
}

proof fn lemma_layer_above_part(small: Layers, large: Layers, names: Seq<Seq<char>>)
    requires
        part_of(small, large),
        all_settled(small, names),
    ensures
        all_settled(large, names),
        layer_above(large, names) == layer_above(small, names),
    decreases names.len(),
{
    assert forall|i: int| 0 <= i < names.len() implies large.contains_key(#[trigger] names[i]) by {
        assert(small.contains_key(names[i]));
    }
    if names.len() > 0 {
        assert(small.contains_key(names[names.len() - 1]));
        assert forall|i: int| 0 <= i < names.drop_last().len() implies small.contains_key(
            #[trigger] names.drop_last()[i],
        ) by {
            assert(names.drop_last()[i] == names[i]);
        }
        lemma_layer_above_part(small, large, names.drop_last());
    }
}

proof fn lemma_settle_told(projects: Seq<ProjectView>, layers: Layers, k: int)
    requires
        distinct_names(projects),
        told(projects, layers),
        projects.len() <= u32::MAX,
        0 <= k < projects.len(),
    ensures
        told(projects, settle(projects, layers, projects[k])),
{
    let p = projects[k];
    let after = settle(projects, layers, p);
    lemma_settle_bounded(projects, layers, p);
    let own = known_names(projects, p.project_dependencies);
    if !layers.contains_key(p.name) && all_settled(layers, own) {
        assert forall|t: Seq<char>| #[trigger] layers.contains_key(t) implies after.contains_key(t) && after[t]
            == layers[t] by {}
        assert(part_of(layers, after));
        assert forall|i: int| 0 <= i < projects.len() && after.contains_key((#[trigger] projects[i]).name) implies {
            let names = known_names(projects, projects[i].project_dependencies);
            all_settled(after, names) && after[projects[i].name] == layer_above(after, names)
        } by {
            let names = known_names(projects, projects[i].project_dependencies);
            if projects[i].name == p.name {
                assert(i == k);
                lemma_layer_above_part(layers, after, names);
            } else {
                assert(layers.contains_key(projects[i].name));
                lemma_layer_above_part(layers, after, names);
            }
        }
    }
}

proof fn lemma_pass_told(projects: Seq<ProjectView>, layers: Layers, n: nat)
    requires
        distinct_names(projects),
        told(projects, layers),
        projects.len() <= u32::MAX,
        n <= projects.len(),
    ensures
        told(projects, pass(projects, layers, n)),
    decreases n,
{
    if n > 0 {
        lemma_pass_told(projects, layers, (n - 1) as nat);
        lemma_settle_told(projects, pass(projects, layers, (n - 1) as nat), n - 1);
    }
}

proof fn lemma_passes_told(projects: Seq<ProjectView>, n: nat)
    requires
        distinct_names(projects),
        projects.len() <= u32::MAX,
    ensures
        told(projects, passes(projects, n)),
    decreases n,
{
    if n > 0 {
        lemma_passes_told(projects, (n - 1) as nat);
        lemma_pass_told(projects, passes(projects, (n - 1) as nat), projects.len());
    }
}

/// A pass keeps what there is; where it adds nothing, nothing can be added.
proof fn lemma_pass_grows(projects: Seq<ProjectView>, layers: Layers, n: nat)
    requires
        projects.len() <= u32::MAX,
        n <= projects.len(),
        bounded(layers),
        named_by(projects, layers.dom()),
    ensures
        bounded(pass(projects, layers, n)),
        named_by(projects, pass(projects, layers, n).dom()),
        part_of(layers, pass(projects, layers, n)),
        pass(projects, layers, n).dom().len() >= layers.dom().len(),
        pass(projects, layers, n).dom().len() == layers.dom().len() ==> pass(projects, layers, n) == layers && forall|
            i: int,
        |
            0 <= i < n ==> settle(projects, layers, #[trigger] projects[i]) == layers,
    decreases n,
{
    if n > 0 {
        let before = pass(projects, layers, (n - 1) as nat);
        lemma_pass_grows(projects, layers, (n - 1) as nat);
        let p = projects[n - 1];
        assert(projects.contains(p));
        lemma_settle_bounded(projects, before, p);
        let after = settle(projects, before, p);
        let names = known_names(projects, p.project_dependencies);
        if !before.contains_key(p.name) && all_settled(before, names) {
            assert(after.dom() =~= before.dom().insert(p.name));
        }
    }
}

proof fn lemma_passes_fixed(projects: Seq<ProjectView>, n: nat) -> (fixed: bool)
    requires
        projects.len() <= u32::MAX,
    ensures
        bounded(passes(projects, n)),
        named_by(projects, passes(projects, n).dom()),
        fixed ==> forall|i: int|
            0 <= i < projects.len() ==> settle(projects, passes(projects, n), #[trigger] projects[i]) == passes(
                projects,
                n,
            ),
        !fixed ==> passes(projects, n).dom().len() >= n,
        fixed || n < projects.len() || forall|i: int|
            0 <= i < projects.len() ==> passes(projects, n).contains_key((#[trigger] projects[i]).name),
    decreases n,
{
    if n == 0 {
        if projects.len() == 0 {
            true
        } else {
            false
        }
    } else {
        let before = passes(projects, (n - 1) as nat);
        let was = lemma_passes_fixed(projects, (n - 1) as nat);
        lemma_pass_grows(projects, before, projects.len());
        let now = passes(projects, n);
        if now.dom().len() == before.dom().len() {
            assert forall|i: int| 0 <= i < projects.len() implies settle(projects, now, #[trigger] projects[i]) == now by {
                assert(settle(projects, before, projects[i]) == before);
            }
            true
        } else if was {
            lemma_pass_of_fixed(projects, before, projects.len());
            true
        } else {
            if n >= projects.len() {
                lemma_full(projects, now.dom());
            }
            false
        }
    }
}

proof fn lemma_pass_of_fixed(projects: Seq<ProjectView>, layers: Layers, n: nat)
    requires
        n <= projects.len(),
        forall|i: int| 0 <= i < projects.len() ==> settle(projects, layers, #[trigger] projects[i]) == layers,
    ensures
        pass(projects, layers, n) == layers,
    decreases n,
{
    if n > 0 {
        lemma_pass_of_fixed(projects, layers, (n - 1) as nat);
        assert(settle(projects, layers, projects[n - 1]) == layers);
    }
}

/// As many names as there are projects are all names.
proof fn lemma_full(projects: Seq<ProjectView>, s: Set<Seq<char>>)
    requires
        named_by(projects, s),
        s.finite(),
        s.len() >= projects.len(),
    ensures
        forall|i: int| 0 <= i < projects.len() ==> s.contains((#[trigger] projects[i]).name),
{
    let all = projects.map_values(|p: ProjectView| p.name);
    assert forall|t: Seq<char>| s.contains(t) implies all.to_set().contains(t) by {
        let i = choose|i: int| 0 <= i < projects.len() && projects[i].name == t;
        assert(all[i] == t);
    }
    all.lemma_cardinality_of_set();
    assert forall|i: int| 0 <= i < projects.len() implies s.contains((#[trigger] projects[i]).name) by {
        let t = projects[i].name;
        assert(all[i] == t);
        assert(all.to_set().contains(t));
        if !s.contains(t) {
            let more = s.insert(t);
            assert(more.subset_of(all.to_set()));
            vstd::set_lib::lemma_len_subset(more, all.to_set());
        }
    }
}

proof fn lemma_with_rest(projects: Seq<ProjectView>, layers: Layers)
    ensures
        part_of(layers, with_rest(projects, layers)),
        forall|i: int| 0 <= i < projects.len() ==> with_rest(projects, layers).contains_key((#[trigger] projects[i]).name),
        forall|t: Seq<char>| #[trigger]
            with_rest(projects, layers).contains_key(t) && !layers.contains_key(t) ==> with_rest(projects, layers)[t]
                == 0,
    decreases projects.len(),
{
    if projects.len() > 0 {
        lemma_with_rest(projects.drop_last(), layers);
        assert forall|i: int| 0 <= i < projects.len() implies with_rest(projects, layers).contains_key(
            (#[trigger] projects[i]).name,
        ) by {
            if i < projects.len() - 1 {
                assert(projects.drop_last()[i] == projects[i]);
            }
        }
    }
}

/// Every project has a layer.
pub proof fn lemma_all_layered(projects: Seq<ProjectView>, i: int)
    requires
        0 <= i < projects.len(),
    ensures
        layers_of(projects).contains_key(projects[i].name),
{
    lemma_with_rest(projects, passes(projects, projects.len()));
}

/// Every project has a layer. Where no two projects have one name:
/// - a project whose layer can be told has all its dependencies told, and its layer is one above
///   the highest of theirs, or 0 where it has none;
/// - any other project has layer 0 and a dependency whose layer cannot be told either.
pub proof fn law_layers_follow_dependencies(projects: Seq<ProjectView>, i: int)
    requires
        projects.len() <= u32::MAX,
        distinct_names(projects),
        0 <= i < projects.len(),
    ensures
        layers_of(projects).contains_key(projects[i].name),
        ({
            let layers = layers_of(projects);
            let names = known_names(projects, projects[i].project_dependencies);
            if settled_names(projects).contains(projects[i].name) {
                &&& forall|k: int| 0 <= k < names.len() ==> settled_names(projects).contains(#[trigger] names[k])
                &&& layers[projects[i].name] == layer_above(layers, names)
            } else {
                &&& layers[projects[i].name] == 0
                &&& exists|k: int| 0 <= k < names.len() && !settled_names(projects).contains(#[trigger] names[k])
            }
        }),
{
    let n = projects.len();
    let told_layers = passes(projects, n);
    let layers = layers_of(projects);
    let p = projects[i];
    let names = known_names(projects, p.project_dependencies);
    lemma_passes_told(projects, n);
    let fixed = lemma_passes_fixed(projects, n);
    lemma_with_rest(projects, told_layers);
    if told_layers.contains_key(p.name) {
        lemma_layer_above_part(told_layers, layers, names);
        assert forall|k: int| 0 <= k < names.len() implies settled_names(projects).contains(#[trigger] names[k]) by {
            assert(told_layers.contains_key(names[k]));
        }
    } else {
        assert(fixed);
        assert(settle(projects, told_layers, projects[i]) == told_layers);
        if all_settled(told_layers, names) {
            assert(settle(projects, told_layers, p).contains_key(p.name));
        }
        let k = choose|k: int| 0 <= k < names.len() && !told_layers.contains_key(#[trigger] names[k]);
        assert(!settled_names(projects).contains(names[k]));
    }
}

/// A project whose layer can be told runs after each of its dependencies, and it is in layer 0
/// exactly where none of its dependencies is a project.
pub proof fn law_dependencies_run_first(projects: Seq<ProjectView>, i: int, k: int)
    requires
        projects.len() <= u32::MAX,
        distinct_names(projects),
        0 <= i < projects.len(),
        settled_names(projects).contains(projects[i].name),
        0 <= k < known_names(projects, projects[i].project_dependencies).len(),
    ensures
        layers_of(projects)[known_names(projects, projects[i].project_dependencies)[k]] < layers_of(
            projects,
        )[projects[i].name],
{
    law_layers_follow_dependencies(projects, i);
    lemma_layer_above_each(layers_of(projects), known_names(projects, projects[i].project_dependencies), k);
}

proof fn lemma_layer_above_each(layers: Layers, names: Seq<Seq<char>>, k: int)
    requires
        0 <= k < names.len(),
    ensures
        layers[names[k]] < layer_above(layers, names),
    decreases names.len(),
{
    if k < names.len() - 1 {
        lemma_layer_above_each(layers, names.drop_last(), k);
    }
}

/// The arcs from the first projects to the projects that they depend on, by name.
pub open spec fn dependency_arcs(all: Seq<ProjectView>, projects: Seq<ProjectView>) -> Seq<(Seq<char>, Seq<char>)>
    decreases projects.len(),
{
    if projects.len() == 0 {
        Seq::empty()
    } else {
        let p = projects.last();
        dependency_arcs(all, projects.drop_last()) + known_names(all, p.project_dependencies).map_values(
            |d: Seq<char>| (p.name, d),
        )
    }
}

proof fn lemma_dependency_arc(all: Seq<ProjectView>, projects: Seq<ProjectView>, u: Seq<char>, v: Seq<char>)
    ensures
        dependency_arcs(all, projects).contains((u, v)) <==> exists|i: int|
            0 <= i < projects.len() && (#[trigger] projects[i]).name == u && known_names(
                all,
                projects[i].project_dependencies,
            ).contains(v),
    decreases projects.len(),
{
    if projects.len() > 0 {
        let rest = projects.drop_last();
        let p = projects.last();
        let names = known_names(all, p.project_dependencies);
        let before = dependency_arcs(all, rest);
        let mine = names.map_values(|d: Seq<char>| (p.name, d));
        let arcs = dependency_arcs(all, projects);
        lemma_dependency_arc(all, rest, u, v);
        if arcs.contains((u, v)) {
            let k = choose|k: int| 0 <= k < arcs.len() && arcs[k] == (u, v);
            if k < before.len() {
                assert(before[k] == (u, v));
                let i = choose|i: int|
                    0 <= i < rest.len() && (#[trigger] rest[i]).name == u && known_names(
                        all,
                        rest[i].project_dependencies,
                    ).contains(v);
                assert(projects[i] == rest[i]);
            } else {
                assert(mine[k - before.len()] == (u, v));
                assert(names[k - before.len()] == v);
                assert(projects[projects.len() - 1] == p);
            }
        }
        if exists|i: int|
            0 <= i < projects.len() && (#[trigger] projects[i]).name == u && known_names(
                all,
                projects[i].project_dependencies,
            ).contains(v) {
            let i = choose|i: int|
                0 <= i < projects.len() && (#[trigger] projects[i]).name == u && known_names(
                    all,
                    projects[i].project_dependencies,
                ).contains(v);
            if i < rest.len() {
                assert(rest[i] == projects[i]);
                let k = choose|k: int| 0 <= k < before.len() && before[k] == (u, v);
                assert(arcs[k] == (u, v));
            } else {
                let k = choose|k: int| 0 <= k < names.len() && names[k] == v;
                assert(mine[k] == (u, v));
                assert(arcs[before.len() + k] == (u, v));
            }
        }
    }
}

/// What is known to be a dependency is the name of a project.
proof fn lemma_known_is_project(projects: Seq<ProjectView>, deps: Seq<Seq<char>>, k: int)
    requires
        0 <= k < known_names(projects, deps).len(),
    ensures
        exists|i: int| 0 <= i < projects.len() && (#[trigger] projects[i]).name == known_names(projects, deps)[k],
    decreases deps.len(),
{
    if deps.len() > 0 {
        let before = known_names(projects, deps.drop_last());
        if k < before.len() {
            lemma_known_is_project(projects, deps.drop_last(), k);
        } else {
            lemma_name_of_dir(projects, deps.last());
        }
    }
}

/// From a project whose layer can be told, a walk leads through such projects only, and down.
proof fn lemma_walk_goes_down(projects: Seq<ProjectView>, w: Seq<Seq<char>>, k: int)
    requires
        projects.len() <= u32::MAX,
        distinct_names(projects),
        is_walk(dependency_arcs(projects, projects), w),
        settled_names(projects).contains(w[0]),
        0 <= k < w.len(),
    ensures
        settled_names(projects).contains(w[k]),
        layers_of(projects)[w[k]] + k <= layers_of(projects)[w[0]],
    decreases k,
{
    if k > 0 {
        lemma_walk_goes_down(projects, w, k - 1);
        assert(steps_on(dependency_arcs(projects, projects), w, k - 1));
        lemma_arc_goes_down(projects, w[k - 1], w[k]);
    }
}

proof fn lemma_arc_goes_down(projects: Seq<ProjectView>, u: Seq<char>, v: Seq<char>)
    requires
        projects.len() <= u32::MAX,
        distinct_names(projects),
        dependency_arcs(projects, projects).contains((u, v)),
        settled_names(projects).contains(u),
    ensures
        settled_names(projects).contains(v),
        layers_of(projects)[v] < layers_of(projects)[u],
{
    lemma_dependency_arc(projects, projects, u, v);
    let i = choose|i: int|
        0 <= i < projects.len() && (#[trigger] projects[i]).name == u && known_names(
            projects,
            projects[i].project_dependencies,
        ).contains(v);
    let names = known_names(projects, projects[i].project_dependencies);
    let k = choose|k: int| 0 <= k < names.len() && names[k] == v;
    law_layers_follow_dependencies(projects, i);
    law_dependencies_run_first(projects, i, k);
}

/// The names of the first projects whose layer cannot be told.
spec fn untold(all: Seq<ProjectView>, projects: Seq<ProjectView>) -> Seq<Seq<char>>
    decreases projects.len(),
{
    if projects.len() == 0 {
        Seq::empty()
    } else {
        let before = untold(all, projects.drop_last());
        if settled_names(all).contains(projects.last().name) {
            before
        } else {
            before.push(projects.last().name)
        }
    }
}

proof fn lemma_untold(all: Seq<ProjectView>, projects: Seq<ProjectView>, t: Seq<char>)
    ensures
        untold(all, projects).contains(t) <==> !settled_names(all).contains(t) && exists|i: int|
            0 <= i < projects.len() && (#[trigger] projects[i]).name == t,
    decreases projects.len(),
{
    if projects.len() > 0 {
        let rest = projects.drop_last();
        let before = untold(all, rest);
        let now = untold(all, projects);
        let p = projects.last();
        lemma_untold(all, rest, t);
        if now.contains(t) {
            let k = choose|k: int| 0 <= k < now.len() && now[k] == t;
            if k < before.len() {
                assert(before[k] == t);
                let i = choose|i: int| 0 <= i < rest.len() && (#[trigger] rest[i]).name == t;
                assert(projects[i] == rest[i]);
            } else {
                assert(projects[projects.len() - 1] == p);
            }
        }
        if !settled_names(all).contains(t) && exists|i: int|
            0 <= i < projects.len() && (#[trigger] projects[i]).name == t {
            let i = choose|i: int| 0 <= i < projects.len() && (#[trigger] projects[i]).name == t;
            if i < rest.len() {
                assert(rest[i] == projects[i]);
                let k = choose|k: int| 0 <= k < before.len() && before[k] == t;
                assert(now[k] == t);
            } else {
                assert(now[before.len() as int] == t);
            }
        }
    }
}

/// The layer of a project cannot be told exactly where its dependencies lead to a circular
/// dependency.
pub proof fn law_untold_leads_to_cycle(projects: Seq<ProjectView>, i: int)
    requires
        projects.len() <= u32::MAX,
        distinct_names(projects),
        0 <= i < projects.len(),
    ensures
        !settled_names(projects).contains(projects[i].name) <==> leads_to_cycle(
            dependency_arcs(projects, projects),
            projects[i].name,
        ),
{
    let arcs = dependency_arcs(projects, projects);
    let settled = settled_names(projects);
    let name = projects[i].name;
    if settled.contains(name) && leads_to_cycle(arcs, name) {
        let c = choose|c: Seq<Seq<char>>| #[trigger] is_closed_walk(arcs, c) && reaches(arcs, name, c[0]);
        let w = choose|w: Seq<Seq<char>>| #[trigger] is_walk(arcs, w) && w[0] == name && w.last() == c[0];
        lemma_walk_goes_down(projects, w, w.len() - 1);
        lemma_walk_goes_down(projects, c, c.len() - 1);
        lemma_arc_goes_down(projects, c.last(), c[0]);
    }
    if !settled.contains(name) {
        let stuck = untold(projects, projects);
        lemma_untold(projects, projects, name);
        assert forall|v: Seq<char>| stuck.contains(v) implies #[trigger] has_source_in(turned(arcs), stuck, v) by {
            lemma_untold(projects, projects, v);
            let j = choose|j: int| 0 <= j < projects.len() && (#[trigger] projects[j]).name == v;
            let names = known_names(projects, projects[j].project_dependencies);
            law_layers_follow_dependencies(projects, j);
            let k = choose|k: int| 0 <= k < names.len() && !settled.contains(#[trigger] names[k]);
            lemma_known_is_project(projects, projects[j].project_dependencies, k);
            lemma_untold(projects, projects, names[k]);
            assert(names.contains(names[k]));
            lemma_dependency_arc(projects, projects, v, names[k]);
            lemma_turned_arc(arcs, names[k], v);
            assert(stuck.contains(names[k]) && turned(arcs).contains((names[k], v)));
        }
        lemma_stuck_leads_to_cycle(arcs, stuck, name);
    }
}

/// No two projects are in one directory.
pub open spec fn distinct_dirs(projects: Seq<ProjectView>) -> bool {
    forall|i: int, j: int|
        0 <= i < projects.len() && 0 <= j < projects.len() && (#[trigger] projects[i]).dir == (#[trigger] projects[j]).dir
            ==> i == j
}

/// The same projects, in whatever order.
pub open spec fn same_projects(a: Seq<ProjectView>, b: Seq<ProjectView>) -> bool {
    forall|p: ProjectView| #[trigger] a.contains(p) <==> b.contains(p)
}

proof fn lemma_name_of_dir(projects: Seq<ProjectView>, dir: Seq<char>)
    ensures
        match name_of_dir(projects, dir) {
            Some(name) => exists|i: int|
                0 <= i < projects.len() && (#[trigger] projects[i]).dir == dir && projects[i].name == name,
            None => forall|i: int| 0 <= i < projects.len() ==> (#[trigger] projects[i]).dir != dir,
        },
    decreases projects.len(),
{
    if projects.len() > 0 {
        let rest = projects.drop_last();
        if projects.last().dir == dir {
            assert(projects[projects.len() - 1].dir == dir);
        } else {
            lemma_name_of_dir(rest, dir);
            match name_of_dir(rest, dir) {
                Some(name) => {
                    let i = choose|i: int| 0 <= i < rest.len() && (#[trigger] rest[i]).dir == dir && rest[i].name == name;
                    assert(projects[i] == rest[i]);
                },
                None => {
                    assert forall|i: int| 0 <= i < projects.len() implies (#[trigger] projects[i]).dir != dir by {
                        if i < rest.len() {
                            assert(rest[i] == projects[i]);
                        }
                    }
                },
            }
        }
    }
}

proof fn lemma_known_names_reordered(a: Seq<ProjectView>, b: Seq<ProjectView>, deps: Seq<Seq<char>>)
    requires
        same_projects(a, b),
        distinct_dirs(a),
    ensures
        known_names(a, deps) == known_names(b, deps),
    decreases deps.len(),
{
    if deps.len() > 0 {
        let d = deps.last();
        lemma_known_names_reordered(a, b, deps.drop_last());
        lemma_name_of_dir(a, d);
        lemma_name_of_dir(b, d);
        match name_of_dir(b, d) {
            Some(name) => {
                let j = choose|j: int| 0 <= j < b.len() && (#[trigger] b[j]).dir == d && b[j].name == name;
                assert(b.contains(b[j]));
                assert(a.contains(b[j]));
                let k = choose|k: int| 0 <= k < a.len() && a[k] == b[j];
                assert(a[k].dir == d);
                let i = choose|i: int|
                    0 <= i < a.len() && (#[trigger] a[i]).dir == d && a[i].name == name_of_dir(a, d)->0;
                assert(i == k);
            },
            None => {
                if name_of_dir(a, d) is Some {
                    let i = choose|i: int|
                        0 <= i < a.len() && (#[trigger] a[i]).dir == d && a[i].name == name_of_dir(a, d)->0;
                    assert(a.contains(a[i]));
                    assert(b.contains(a[i]));
                    let k = choose|k: int| 0 <= k < b.len() && b[k] == a[i];
                    assert(b[k].dir == d);
                }
            },
        }
    }
}

/// Each layer was told from the layers of the dependencies, and none can be added.
spec fn complete(projects: Seq<ProjectView>, layers: Layers) -> bool {
    &&& told(projects, layers)
    &&& forall|i: int|
        0 <= i < projects.len() && !layers.contains_key((#[trigger] projects[i]).name) ==> !all_settled(
            layers,
            known_names(projects, projects[i].project_dependencies),
        )
}

proof fn lemma_passes_complete(projects: Seq<ProjectView>)
    requires
        projects.len() <= u32::MAX,
        distinct_names(projects),
    ensures
        complete(projects, passes(projects, projects.len())),
{
    let layers = passes(projects, projects.len());
    lemma_passes_told(projects, projects.len());
    let fixed = lemma_passes_fixed(projects, projects.len());
    assert forall|i: int|
        0 <= i < projects.len() && !layers.contains_key((#[trigger] projects[i]).name) implies !all_settled(
        layers,
        known_names(projects, projects[i].project_dependencies),
    ) by {
        assert(fixed);
        assert(settle(projects, layers, projects[i]) == layers);
    }
}

proof fn lemma_pass_in_complete(a: Seq<ProjectView>, b: Seq<ProjectView>, layers: Layers, whole: Layers, n: nat)
    requires
        same_projects(a, b),
        distinct_dirs(a),
        complete(b, whole),
        part_of(layers, whole),
        n <= a.len(),
    ensures
        part_of(pass(a, layers, n), whole),
    decreases n,
{
    if n > 0 {
        let before = pass(a, layers, (n - 1) as nat);
        lemma_pass_in_complete(a, b, layers, whole, (n - 1) as nat);
        let p = a[n - 1];
        let names = known_names(a, p.project_dependencies);
        lemma_known_names_reordered(a, b, p.project_dependencies);
        if !before.contains_key(p.name) && all_settled(before, names) {
            lemma_layer_above_part(before, whole, names);
            assert(a.contains(p));
            assert(b.contains(p));
            let j = choose|j: int| 0 <= j < b.len() && b[j] == p;
            assert(whole.contains_key(b[j].name));
            assert(whole[b[j].name] == layer_above(whole, names));
        }
    }
}

proof fn lemma_passes_in_complete(a: Seq<ProjectView>, b: Seq<ProjectView>, whole: Layers, n: nat)
    requires
        same_projects(a, b),
        distinct_dirs(a),
        complete(b, whole),
    ensures
        part_of(passes(a, n), whole),
    decreases n,
{
    if n > 0 {
        lemma_passes_in_complete(a, b, whole, (n - 1) as nat);
        lemma_pass_in_complete(a, b, passes(a, (n - 1) as nat), whole, a.len());
    }
}

proof fn lemma_with_rest_named(projects: Seq<ProjectView>, layers: Layers, t: Seq<char>)
    requires
        with_rest(projects, layers).contains_key(t),
    ensures
        layers.contains_key(t) || exists|i: int| 0 <= i < projects.len() && (#[trigger] projects[i]).name == t,
    decreases projects.len(),
{
    if projects.len() > 0 {
        let rest = projects.drop_last();
        if with_rest(rest, layers).contains_key(t) {
            lemma_with_rest_named(rest, layers, t);
            if !layers.contains_key(t) {
                let i = choose|i: int| 0 <= i < rest.len() && (#[trigger] rest[i]).name == t;
                assert(projects[i] == rest[i]);
            }
        } else {
            assert(projects[projects.len() - 1].name == t);
        }
    }
}

proof fn lemma_layers_part(a: Seq<ProjectView>, b: Seq<ProjectView>)
    requires
        same_projects(a, b),
        passes(a, a.len()) == passes(b, b.len()),
    ensures
        part_of(layers_of(a), layers_of(b)),
{
    let settled = passes(a, a.len());
    lemma_with_rest(a, settled);
    lemma_with_rest(b, settled);
    assert forall|t: Seq<char>| #[trigger] layers_of(a).contains_key(t) implies layers_of(b).contains_key(t)
        && layers_of(b)[t] == layers_of(a)[t] by {
        lemma_with_rest_named(a, settled, t);
        if !settled.contains_key(t) {
            let i = choose|i: int| 0 <= i < a.len() && (#[trigger] a[i]).name == t;
            assert(a.contains(a[i]));
            assert(b.contains(a[i]));
            let j = choose|j: int| 0 <= j < b.len() && b[j] == a[i];
            assert(layers_of(b).contains_key(b[j].name));
        }
    }
}

/// The layers do not depend on the order in which the projects come.
pub proof fn law_layers_in_any_order(a: Seq<ProjectView>, b: Seq<ProjectView>)
    requires
        a.len() <= u32::MAX,
        b.len() <= u32::MAX,
        same_projects(a, b),
        distinct_names(a),
        distinct_names(b),
        distinct_dirs(a),
        distinct_dirs(b),
    ensures
        layers_of(a) == layers_of(b),
{
    let x = passes(a, a.len());
    let y = passes(b, b.len());
    lemma_passes_complete(a);
    lemma_passes_complete(b);
    lemma_passes_in_complete(a, b, y, a.len());
    lemma_passes_in_complete(b, a, x, b.len());
    assert(x =~= y);
    lemma_layers_part(a, b);
    lemma_layers_part(b, a);
    assert(layers_of(a) =~= layers_of(b));
}

} // verus!
