//! What holds of every expansion of stack files.

#[allow(unused_imports)]
use crate::names::with_name;
#[allow(unused_imports)]
use crate::path::{
    has_path, has_root, joined, lemma_joined_lies_under, lemma_lies_under_goes_on, lemma_ordered_paths, lies_under,
    ordered_paths, parent_of, path_parts, path_text, same_parts, PartView,
};
#[allow(unused_imports)]
use crate::processor::{project_name, project_of, real_path, DependencyStyle, PlanView};
#[allow(unused_imports)]
use crate::project::ProjectView;
#[allow(unused_imports)]
use crate::resolver::{empty_object_view, resolved, scope_of, EventView, ResolveOptions};
#[allow(unused_imports)]
use crate::hcl_eval::{lazily, locals_of, ScopeView};
#[allow(unused_imports)]
use crate::parser::is_remote;
#[allow(unused_imports)]
use crate::text::{begins_with, join_with};
#[allow(unused_imports)]
use crate::stack::{
    all_expanded, bound_values, covering, covers, expanded, folded, frames_around, marker_at, names_of, nearest_stack, noted,
    nothing_expanded, own_units, placed, put_out, room, source_of, stack_context,
    stack_followed, stack_locals, synthetic_project, unit_dir_of, unit_expanded, unit_values, units_expanded,
    values_around, with_binding, BindingView, ExpandView, FrameView, SiteView,
};
#[allow(unused_imports)]
use crate::stack_file::{BlockKind, UnitView};
#[allow(unused_imports)]
use crate::syntax::{ContentsView, ExprView, ValueView};
#[allow(unused_imports)]
use crate::world::World;
use vstd::prelude::*;

verus! {

/// Each project was put out for a directory of its own, and that directory is taken.
pub open spec fn is_tidy(w: World, st: ExpandView) -> bool {
    &&& st.leaves.no_duplicates()
    &&& st.leaves.len() == st.projects.len()
    &&& forall|i: int| 0 <= i < st.projects.len() ==> real_path(w, (#[trigger] st.projects[i]).dir) == st.leaves[i]
    &&& forall|i: int| 0 <= i < st.leaves.len() ==> st.unit_dirs.contains(#[trigger] st.leaves[i])
}

/// No stack file declares a unit at an absolute path.
pub open spec fn relative_units(w: World) -> bool {
    forall|file: Seq<char>, i: int|
        #![trigger (w.stack)(file)->Ok_0.units[i]]
        (w.stack)(file) is Ok && 0 <= i < (w.stack)(file)->Ok_0.units.len() ==> !has_root(
            (w.stack)(file)->Ok_0.units[i].path,
        )
}

/// What `a` holds is held by `b`, in its place.
pub open spec fn grows(a: ExpandView, b: ExpandView) -> bool {
    &&& forall|t: Seq<char>| #[trigger] a.sources.contains(t) ==> b.sources.contains(t)
    &&& forall|t: Seq<char>| #[trigger] a.unit_dirs.contains(t) ==> b.unit_dirs.contains(t)
    &&& a.projects.len() <= b.projects.len()
    &&& forall|i: int| 0 <= i < a.projects.len() ==> #[trigger] b.projects[i] == a.projects[i]
    &&& a.events.len() <= b.events.len()
    &&& forall|i: int| 0 <= i < a.events.len() ==> #[trigger] b.events[i] == a.events[i]
}

/// The projects that `b` holds beyond `a` lie under `base`.
pub open spec fn below(base: Seq<char>, a: ExpandView, b: ExpandView) -> bool {
    forall|i: int| a.projects.len() <= i < b.projects.len() ==> lies_under((#[trigger] b.projects[i]).dir, base)
}

proof fn lemma_grows(a: ExpandView, b: ExpandView, c: ExpandView)
    requires
        grows(a, b),
        grows(b, c),
    ensures
        grows(a, c),
{
    assert forall|i: int| 0 <= i < a.projects.len() implies #[trigger] c.projects[i] == a.projects[i] by {
        assert(b.projects[i] == a.projects[i]);
    }
    assert forall|i: int| 0 <= i < a.events.len() implies #[trigger] c.events[i] == a.events[i] by {
        assert(b.events[i] == a.events[i]);
    }
}

proof fn lemma_below(base: Seq<char>, a: ExpandView, b: ExpandView, c: ExpandView)
    requires
        grows(b, c),
        below(base, a, b),
        below(base, b, c),
    ensures
        below(base, a, c),
{
    assert forall|i: int| a.projects.len() <= i < c.projects.len() implies lies_under((#[trigger] c.projects[i]).dir, base) by {
        if i < b.projects.len() {
            assert(c.projects[i] == b.projects[i]);
        }
    }
}

proof fn lemma_with_name(names: Seq<Seq<char>>, name: Seq<char>)
    ensures
        with_name(names, name).contains(name),
        forall|t: Seq<char>| #[trigger] names.contains(t) ==> with_name(names, name).contains(t),
{
    if !names.contains(name) {
        let after = names.push(name);
        assert(after[names.len() as int] == name);
        assert forall|t: Seq<char>| #[trigger] names.contains(t) implies after.contains(t) by {
            let i = choose|i: int| 0 <= i < names.len() && names[i] == t;
            assert(after[i] == t);
        }
    }
}

proof fn lemma_noted(w: World, st: ExpandView, events: Seq<EventView>)
    ensures
        grows(st, noted(st, events)),
        is_tidy(w, st) ==> is_tidy(w, noted(st, events)),
{
}

proof fn lemma_placed(
    w: World,
    site: SiteView,
    unit: UnitView,
    source: Seq<char>,
    bound: Option<ValueView>,
    st: ExpandView,
)
    ensures
        grows(st, placed(w, site, unit, source, bound, st)),
        is_tidy(w, st) ==> is_tidy(w, placed(w, site, unit, source, bound, st)),
        placed(w, site, unit, source, bound, st).sources.contains(source),
        placed(w, site, unit, source, bound, st).unit_dirs.contains(real_path(w, unit_dir_of(site, unit))),
        placed(w, site, unit, source, bound, st).projects == st.projects,
{
    lemma_with_name(st.sources, source);
    lemma_with_name(st.unit_dirs, real_path(w, unit_dir_of(site, unit)));
}

proof fn lemma_put_out(
    w: World,
    site: SiteView,
    unit: UnitView,
    source: Seq<char>,
    bound: Option<ValueView>,
    st: ExpandView,
)
    requires
        is_tidy(w, st),
        st.unit_dirs.contains(real_path(w, unit_dir_of(site, unit))),
    ensures
        grows(st, put_out(w, site, unit, source, bound, st)),
        is_tidy(w, put_out(w, site, unit, source, bound, st)),
        !has_root(unit.path) ==> below(site.base, st, put_out(w, site, unit, source, bound, st)),
        put_out(w, site, unit, source, bound, st).leaves.contains(real_path(w, unit_dir_of(site, unit))),
{
    let dir = unit_dir_of(site, unit);
    let target = real_path(w, dir);
    let after = put_out(w, site, unit, source, bound, st);
    if !st.leaves.contains(target) {
        let p = synthetic_project(w, dir, source, site.stack_file, bound).0;
        assert(p.dir == dir);
        assert(after.projects =~= st.projects.push(p));
        assert(after.leaves[st.leaves.len() as int] == target);
        assert forall|i: int, j: int| 0 <= i < after.leaves.len() && 0 <= j < after.leaves.len() && i != j implies #[trigger] after.leaves[i]
            != #[trigger] after.leaves[j] by {
            if i == st.leaves.len() {
                assert(st.leaves[j] != target);
            } else if j == st.leaves.len() {
                assert(st.leaves[i] != target);
            } else {
                assert(st.leaves[i] != st.leaves[j]);
            }
        }
        assert forall|i: int| 0 <= i < after.projects.len() implies real_path(w, (#[trigger] after.projects[i]).dir)
            == after.leaves[i] by {
            if i < st.projects.len() {
                assert(after.projects[i] == st.projects[i]);
            }
        }
        assert forall|i: int| 0 <= i < after.leaves.len() implies after.unit_dirs.contains(#[trigger] after.leaves[i]) by {
            if i < st.leaves.len() {
                assert(st.unit_dirs.contains(st.leaves[i]));
            }
        }
        if !has_root(unit.path) {
            lemma_unit_dir(site, unit);
        }
    }
}

proof fn lemma_unit_dir(site: SiteView, unit: UnitView)
    requires
        !has_root(unit.path),
    ensures
        lies_under(unit_dir_of(site, unit), site.base),
{
    reveal_strlit(".terragrunt-stack");
    lemma_joined_lies_under(site.base, ".terragrunt-stack"@);
    lemma_joined_lies_under(joined(site.base, ".terragrunt-stack"@), unit.path);
    lemma_lies_under_goes_on(unit_dir_of(site, unit), joined(site.base, ".terragrunt-stack"@), site.base);
}

/// The directory that the units of a stack file are generated under.
pub open spec fn base_of(stack_file: Seq<char>, base: Option<Seq<char>>) -> Seq<char> {
    match base {
        Some(b) => b,
        None => match parent_of(stack_file) {
            Some(dir) => dir,
            None => Seq::empty(),
        },
    }
}

/// Expanding a stack file only adds to what was expanded; it never puts out two projects for one
/// directory; and all that it puts out lies under the directory that the file stands in, however
/// far away the sources of its units are.
pub proof fn law_expanding_a_file(
    w: World,
    stack_file: Seq<char>,
    inherited: Option<ValueView>,
    base: Option<Seq<char>>,
    depth: nat,
    opts: ResolveOptions,
    visited: Seq<Seq<char>>,
    st: ExpandView,
)
    requires
        is_tidy(w, st),
    ensures
        ({
            let after = expanded(w, stack_file, inherited, base, depth, opts, visited, st);
            &&& is_tidy(w, after)
            &&& grows(st, after)
            &&& relative_units(w) ==> below(base_of(stack_file, base), st, after)
        }),
    decreases room(opts, depth), 3nat, 0nat,
{
    let target = real_path(w, stack_file);
    let after = expanded(w, stack_file, inherited, base, depth, opts, visited, st);
    if !visited.contains(target) && (w.stack)(stack_file) is Ok && parent_of(stack_file) is Some {
        let parsed = (w.stack)(stack_file)->Ok_0;
        let dir = parent_of(stack_file)->0;
        let (around, events) = match inherited {
            Some(v) => (Some(v), Seq::empty()),
            None => values_around(w, dir, opts),
        };
        let outer = match around {
            Some(v) => v,
            None => empty_object_view(),
        };
        let (locals, calls) = stack_locals(w, stack_file, dir, opts, outer, parsed.body);
        let site = SiteView {
            stack_file,
            base: match base {
                Some(b) => b,
                None => dir,
            },
            context: stack_context(stack_file, dir, opts, outer, Some(locals)),
            outer,
            depth,
            visited: visited.push(target),
        };
        let start = noted(st, events + calls);
        lemma_noted(w, st, events + calls);
        if relative_units(w) {
            assert forall|i: int| 0 <= i < parsed.units.len() implies !has_root((#[trigger] parsed.units[i]).path) by {
                assert((w.stack)(stack_file)->Ok_0.units[i] == parsed.units[i]);
            }
        }
        lemma_expanding_units(w, site, opts, parsed.units, start);
        lemma_grows(st, start, after);
        if relative_units(w) {
            lemma_below(site.base, st, start, after);
        }
    } else if visited.contains(target) {
        lemma_noted(w, st, seq![EventView::CycleSkipped]);
    } else {
        assert(after.projects == st.projects);
        assert(after.leaves == st.leaves);
        assert(grows(st, after));
    }
}

spec fn all_relative(units: Seq<UnitView>) -> bool {
    forall|i: int| 0 <= i < units.len() ==> !has_root((#[trigger] units[i]).path)
}

proof fn lemma_expanding_units(w: World, site: SiteView, opts: ResolveOptions, units: Seq<UnitView>, st: ExpandView)
    requires
        is_tidy(w, st),
    ensures
        ({
            let after = units_expanded(w, site, opts, units, st);
            &&& is_tidy(w, after)
            &&& grows(st, after)
            &&& relative_units(w) && all_relative(units) ==> below(site.base, st, after)
        }),
    decreases room(opts, site.depth), 2nat, units.len(),
{
    if units.len() > 0 {
        let rest = units.drop_last();
        let mid = units_expanded(w, site, opts, rest, st);
        let after = units_expanded(w, site, opts, units, st);
        if all_relative(units) {
            assert forall|i: int| 0 <= i < rest.len() implies !has_root((#[trigger] rest[i]).path) by {
                assert(rest[i] == units[i]);
            }
            assert(!has_root(units[units.len() - 1].path));
        }
        lemma_expanding_units(w, site, opts, rest, st);
        lemma_expanding_unit(w, site, opts, units.last(), mid);
        lemma_grows(st, mid, after);
        if relative_units(w) && all_relative(units) {
            lemma_below(site.base, st, mid, after);
        }
    }
}

proof fn lemma_expanding_unit(w: World, site: SiteView, opts: ResolveOptions, unit: UnitView, st: ExpandView)
    requires
        is_tidy(w, st),
    ensures
        ({
            let after = unit_expanded(w, site, opts, unit, st);
            &&& is_tidy(w, after)
            &&& grows(st, after)
            &&& relative_units(w) && !has_root(unit.path) ==> below(site.base, st, after)
        }),
    decreases room(opts, site.depth), 1nat, 0nat,
{
    let (found, events) = source_of(w, site, unit);
    let after = unit_expanded(w, site, opts, unit, st);
    match found {
        None => {
            lemma_noted(w, st, events);
        },
        Some(source) => {
            let (bound, more) = bound_values(w, site, unit);
            let start = noted(st, events + more);
            lemma_noted(w, st, events + more);
            let here = placed(w, site, unit, source, bound, start);
            lemma_placed(w, site, unit, source, bound, start);
            lemma_grows(st, start, here);
            if unit.kind == BlockKind::Stack {
                let followed = stack_followed(w, site, opts, unit, source, here);
                lemma_following_stack(w, site, opts, unit, source, here);
                lemma_grows(st, here, followed);
                if followed.projects.len() <= here.projects.len() {
                    lemma_put_out(w, site, unit, source, bound, followed);
                    lemma_grows(st, followed, after);
                }
            } else {
                lemma_put_out(w, site, unit, source, bound, here);
                lemma_grows(st, here, after);
            }
        },
    }
}

proof fn lemma_following_stack(
    w: World,
    site: SiteView,
    opts: ResolveOptions,
    unit: UnitView,
    source: Seq<char>,
    st: ExpandView,
)
    requires
        is_tidy(w, st),
    ensures
        ({
            let after = stack_followed(w, site, opts, unit, source, st);
            &&& is_tidy(w, after)
            &&& grows(st, after)
            &&& relative_units(w) && !has_root(unit.path) ==> below(site.base, st, after)
        }),
    decreases room(opts, site.depth), 0nat, 0nat,
{
    let child = joined(source, "terragrunt.stack.hcl"@);
    let after = stack_followed(w, site, opts, unit, source, st);
    if !(w.present)(child) || site.visited.contains(real_path(w, child)) || site.depth + 1 > opts.max_recursion_depth {
        assert(after.projects == st.projects);
        assert(after.leaves == st.leaves);
        assert(grows(st, after));
    } else {
        let (own, events) = unit_values(w, unit, site.context, site.stack_file);
        let values = match own {
            Some(v) => v,
            None => site.outer,
        };
        let dir = unit_dir_of(site, unit);
        let start = noted(st, events);
        lemma_noted(w, st, events);
        law_expanding_a_file(w, real_path(w, child), Some(values), Some(dir), site.depth + 1, opts, site.visited, start);
        lemma_grows(st, start, after);
        if relative_units(w) && !has_root(unit.path) {
            lemma_unit_dir(site, unit);
            assert forall|i: int| st.projects.len() <= i < after.projects.len() implies lies_under(
                (#[trigger] after.projects[i]).dir,
                site.base,
            ) by {
                lemma_lies_under_goes_on(after.projects[i].dir, dir, site.base);
            }
        }
    }
}

/// Over all stack files, no two projects are put out for one directory: a unit that is reached both
/// on its own and through another stack file appears once, and a stack file that is sourced several
/// times is expanded for each place that it is generated in.
pub proof fn law_one_project_for_each_directory(w: World, stack_files: Seq<Seq<char>>, opts: ResolveOptions)
    ensures
        is_tidy(w, all_expanded(w, stack_files, opts)),
        forall|i: int, j: int|
            0 <= i < j < all_expanded(w, stack_files, opts).projects.len() ==> real_path(
                w,
                (#[trigger] all_expanded(w, stack_files, opts).projects[i]).dir,
            ) != real_path(w, (#[trigger] all_expanded(w, stack_files, opts).projects[j]).dir),
    decreases stack_files.len(),
{
    let all = all_expanded(w, stack_files, opts);
    if stack_files.len() > 0 {
        law_one_project_for_each_directory(w, stack_files.drop_last(), opts);
        law_expanding_a_file(
            w,
            stack_files.last(),
            None,
            None,
            0,
            opts,
            Seq::empty(),
            all_expanded(w, stack_files.drop_last(), opts),
        );
    }
    assert forall|i: int, j: int| 0 <= i < j < all.projects.len() implies real_path(w, (#[trigger] all.projects[i]).dir)
        != real_path(w, (#[trigger] all.projects[j]).dir) by {
        assert(all.leaves[i] != all.leaves[j]);
    }
}

/// A unit directory that is kept is neither a shared module nor generated by a stack, so no
/// synthetic project was put out for it.
pub proof fn law_kept_units_are_on_their_own(
    w: World,
    dirs: Seq<Seq<char>>,
    stack_files: Seq<Seq<char>>,
    opts: ResolveOptions,
    i: int,
    j: int,
)
    requires
        0 <= i < own_units(w, dirs, all_expanded(w, stack_files, opts)).len(),
    ensures
        ({
            let st = all_expanded(w, stack_files, opts);
            let dir = own_units(w, dirs, st)[i];
            &&& !st.sources.contains(real_path(w, dir))
            &&& !st.unit_dirs.contains(real_path(w, dir))
            &&& 0 <= j < st.projects.len() ==> real_path(w, st.projects[j].dir) != real_path(w, dir)
        }),
{
    let st = all_expanded(w, stack_files, opts);
    lemma_kept(w, dirs, st, i);
    law_one_project_for_each_directory(w, stack_files, opts);
    if 0 <= j < st.projects.len() {
        assert(real_path(w, st.projects[j].dir) == st.leaves[j]);
        assert(st.unit_dirs.contains(st.leaves[j]));
    }
}

proof fn lemma_kept(w: World, dirs: Seq<Seq<char>>, st: ExpandView, i: int)
    requires
        0 <= i < own_units(w, dirs, st).len(),
    ensures
        !st.sources.contains(real_path(w, own_units(w, dirs, st)[i])),
        !st.unit_dirs.contains(real_path(w, own_units(w, dirs, st)[i])),
    decreases dirs.len(),
{
    let before = own_units(w, dirs.drop_last(), st);
    if i < before.len() {
        lemma_kept(w, dirs.drop_last(), st, i);
        assert(own_units(w, dirs, st)[i] == before[i]);
    }
}

/// A unit whose source is found leaves its module among the shared modules: once a stack uses it, a
/// module is not taken for a unit of its own.
pub proof fn law_module_is_no_unit(w: World, site: SiteView, opts: ResolveOptions, unit: UnitView, st: ExpandView)
    requires
        is_tidy(w, st),
        source_of(w, site, unit).0 is Some,
    ensures
        unit_expanded(w, site, opts, unit, st).sources.contains(source_of(w, site, unit).0->0),
        unit_expanded(w, site, opts, unit, st).unit_dirs.contains(real_path(w, unit_dir_of(site, unit))),
{
    let source = source_of(w, site, unit).0->0;
    let (bound, more) = bound_values(w, site, unit);
    let start = noted(st, source_of(w, site, unit).1 + more);
    lemma_noted(w, st, source_of(w, site, unit).1 + more);
    let here = placed(w, site, unit, source, bound, start);
    lemma_placed(w, site, unit, source, bound, start);
    if unit.kind == BlockKind::Stack {
        let followed = stack_followed(w, site, opts, unit, source, here);
        lemma_following_stack(w, site, opts, unit, source, here);
        assert(followed.sources.contains(source));
    }
}

/// A `unit` whose source is found is put out, or was put out before.
pub proof fn law_unit_is_put_out(w: World, site: SiteView, opts: ResolveOptions, unit: UnitView, st: ExpandView)
    requires
        is_tidy(w, st),
        unit.kind == BlockKind::Unit,
        source_of(w, site, unit).0 is Some,
    ensures
        unit_expanded(w, site, opts, unit, st).leaves.contains(real_path(w, unit_dir_of(site, unit))),
{
    let source = source_of(w, site, unit).0->0;
    let (bound, more) = bound_values(w, site, unit);
    let start = noted(st, source_of(w, site, unit).1 + more);
    lemma_noted(w, st, source_of(w, site, unit).1 + more);
    lemma_placed(w, site, unit, source, bound, start);
    lemma_put_out(w, site, unit, source, bound, placed(w, site, unit, source, bound, start));
}

/// Stacks are not followed beyond the limit: a `stack` at that depth is put out itself.
pub proof fn law_depth_is_limited(
    w: World,
    site: SiteView,
    opts: ResolveOptions,
    unit: UnitView,
    source: Seq<char>,
    st: ExpandView,
)
    requires
        site.depth >= opts.max_recursion_depth,
    ensures
        stack_followed(w, site, opts, unit, source, st).projects == st.projects,
        source_of(w, site, unit).0 is Some ==> unit_expanded(w, site, opts, unit, st).leaves.contains(
            real_path(w, unit_dir_of(site, unit)),
        ),
{
    if source_of(w, site, unit).0 is Some {
        let found = source_of(w, site, unit).0->0;
        let (bound, more) = bound_values(w, site, unit);
        let here = placed(w, site, unit, found, bound, noted(st, source_of(w, site, unit).1 + more));
        let after = stack_followed(w, site, opts, unit, found, here);
        assert(after.projects == here.projects);
        assert(put_out(w, site, unit, found, bound, after).leaves.contains(real_path(w, unit_dir_of(site, unit)))) by {
            let target = real_path(w, unit_dir_of(site, unit));
            assert(after.leaves.push(target)[after.leaves.len() as int] == target);
        }
        assert(put_out(w, site, unit, found, bound, here).leaves.contains(real_path(w, unit_dir_of(site, unit)))) by {
            let target = real_path(w, unit_dir_of(site, unit));
            assert(here.leaves.push(target)[here.leaves.len() as int] == target);
        }
    }
}

/// A stack file that is being expanded is not expanded again, whatever leads back to it.
pub proof fn law_cycles_end(
    w: World,
    stack_file: Seq<char>,
    inherited: Option<ValueView>,
    base: Option<Seq<char>>,
    depth: nat,
    opts: ResolveOptions,
    visited: Seq<Seq<char>>,
    st: ExpandView,
)
    requires
        visited.contains(real_path(w, stack_file)),
    ensures
        expanded(w, stack_file, inherited, base, depth, opts, visited, st) == noted(st, seq![EventView::CycleSkipped]),
{
}

/// One of the watch files of the project is the path `t`.
pub open spec fn watches(p: ProjectView, t: Seq<char>) -> bool {
    exists|i: int| 0 <= i < p.watch_files.len() && path_parts(#[trigger] p.watch_files[i]) == path_parts(t)
}

/// The project watches the stack file that declares it, and the configurations and the terraform files
/// of the module that it is made from.
pub open spec fn watches_module(p: ProjectView, stack_file: Seq<char>, module: Seq<char>) -> bool {
    &&& watches(p, stack_file)
    &&& watches(p, joined(module, "**/*.hcl"@))
    &&& watches(p, joined(module, "**/*.tf*"@))
}

proof fn lemma_watches_ordered(p: ProjectView, files: Seq<Seq<char>>, k: int)
    requires
        0 <= k < files.len(),
        p.watch_files == ordered_paths(files),
    ensures
        watches(p, files[k]),
{
    lemma_ordered_paths(files);
    assert(same_parts(files[k], files[k]));
    assert(has_path(files, files[k]));
    assert(has_path(p.watch_files, files[k]));
    let i = choose|i: int| 0 <= i < p.watch_files.len() && same_parts(#[trigger] p.watch_files[i], files[k]);
    assert(path_parts(p.watch_files[i]) == path_parts(files[k]));
}

/// The project of a unit has the directory of the unit, uses a module, and watches the stack file and
/// its module, whether it was processed or not; a warning says where it could not be; and all that was
/// watched when it was processed, and the dependencies that were found, stay.
pub proof fn law_unit_watches_its_module(
    w: World,
    unit_dir: Seq<char>,
    source: Seq<char>,
    stack_file: Seq<char>,
    bound: Option<ValueView>,
)
    ensures
        ({
            let p = synthetic_project(w, unit_dir, source, stack_file, bound).0;
            let generated = project_of(
                w,
                unit_dir,
                PlanView { project_dir: unit_dir, unit_dir: None, values: bound, style: DependencyStyle::Path },
            );
            let of_module = project_of(
                w,
                source,
                PlanView { project_dir: source, unit_dir: Some(unit_dir), values: bound, style: DependencyStyle::Path },
            );
            let is_generated = (w.present)(joined(unit_dir, "terragrunt.hcl"@));
            let is_module = !is_generated && (w.present)(joined(source, "terragrunt.hcl"@));
            let told = synthetic_project(w, unit_dir, source, stack_file, bound).1;
            &&& p.dir == unit_dir
            &&& p.name == project_name(unit_dir)
            &&& p.has_terraform_source
            &&& watches_module(p, stack_file, source)
            &&& (is_generated && generated is Err) || (is_module && of_module is Err) ==> told.len() == 1 && told[0] is Warning
            &&& !((is_generated && generated is Err) || (is_module && of_module is Err)) ==> told.len() == 0
            &&& is_generated && generated is Ok ==> p.project_dependencies == generated->Ok_0.project_dependencies
                && forall|k: int|
                0 <= k < generated->Ok_0.watch_files.len() ==> watches(p, #[trigger] generated->Ok_0.watch_files[k])
            &&& is_module && of_module is Ok ==> p.project_dependencies == of_module->Ok_0.project_dependencies
                && forall|k: int|
                0 <= k < of_module->Ok_0.watch_files.len() ==> watches(p, #[trigger] of_module->Ok_0.watch_files[k])
            &&& (is_generated && generated is Err) || (is_module && of_module is Err) || (!is_generated && !is_module)
                ==> p.project_dependencies.len() == 0
        }),
{
    let p = synthetic_project(w, unit_dir, source, stack_file, bound).0;
    let hcl = joined(source, "**/*.hcl"@);
    let tf = joined(source, "**/*.tf*"@);
    let own = seq![stack_file, hcl, tf];
    let is_generated = (w.present)(joined(unit_dir, "terragrunt.hcl"@));
    let r = if is_generated {
        project_of(
            w,
            unit_dir,
            PlanView { project_dir: unit_dir, unit_dir: None, values: bound, style: DependencyStyle::Path },
        )
    } else {
        project_of(
            w,
            source,
            PlanView { project_dir: source, unit_dir: Some(unit_dir), values: bound, style: DependencyStyle::Path },
        )
    };
    if (is_generated || (w.present)(joined(source, "terragrunt.hcl"@))) && r is Ok {
        let had = r->Ok_0.watch_files;
        let files = had + own;
        let n = had.len() as int;
        assert(p.watch_files == ordered_paths(files));
        assert(files[n] == stack_file && files[n + 1] == hcl && files[n + 2] == tf);
        lemma_watches_ordered(p, files, n);
        lemma_watches_ordered(p, files, n + 1);
        lemma_watches_ordered(p, files, n + 2);
        assert forall|k: int| 0 <= k < had.len() implies watches(p, #[trigger] had[k]) by {
            lemma_watches_ordered(p, files, k);
            assert(files[k] == had[k]);
        }
    } else {
        assert(p.watch_files =~= own);
        assert(path_parts(p.watch_files[0]) == path_parts(stack_file));
        assert(path_parts(p.watch_files[1]) == path_parts(hcl));
        assert(path_parts(p.watch_files[2]) == path_parts(tf));
    }
}

/// A `unit` whose source is found, and whose directory is not taken, is put out behind the others, in
/// `.terragrunt-stack` under the directory that the stack file generates into, and watches the stack
/// file and its module.
pub proof fn law_put_out_unit(w: World, site: SiteView, opts: ResolveOptions, unit: UnitView, st: ExpandView)
    requires
        unit.kind == BlockKind::Unit,
        source_of(w, site, unit).0 is Some,
        !st.leaves.contains(real_path(w, joined(joined(site.base, ".terragrunt-stack"@), unit.path))),
    ensures
        ({
            let after = unit_expanded(w, site, opts, unit, st).projects;
            &&& after.len() == st.projects.len() + 1
            &&& after.drop_last() == st.projects
            &&& after.last().dir == joined(joined(site.base, ".terragrunt-stack"@), unit.path)
            &&& watches_module(after.last(), site.stack_file, source_of(w, site, unit).0->0)
        }),
{
    let source = source_of(w, site, unit).0->0;
    let (bound, more) = bound_values(w, site, unit);
    law_unit_watches_its_module(w, unit_dir_of(site, unit), source, site.stack_file, bound);
    let after = unit_expanded(w, site, opts, unit, st).projects;
    assert(after.drop_last() =~= st.projects);
}

/// The project watches some stack file and one of the modules.
pub open spec fn watches_one_of(p: ProjectView, modules: Seq<Seq<char>>) -> bool {
    exists|file: Seq<char>, module: Seq<char>| modules.contains(module) && #[trigger] watches_module(p, file, module)
}

/// Each project that `b` holds beyond `a` watches a stack file and one of the modules in `b`.
pub open spec fn modular(a: ExpandView, b: ExpandView) -> bool {
    forall|i: int| a.projects.len() <= i < b.projects.len() ==> watches_one_of(#[trigger] b.projects[i], b.sources)
}

proof fn lemma_modular(a: ExpandView, b: ExpandView, c: ExpandView)
    requires
        grows(b, c),
        modular(a, b),
        modular(b, c),
    ensures
        modular(a, c),
{
    assert forall|i: int| a.projects.len() <= i < c.projects.len() implies watches_one_of(
        #[trigger] c.projects[i],
        c.sources,
    ) by {
        if i < b.projects.len() {
            assert(watches_one_of(b.projects[i], b.sources));
            let (file, module) = choose|file: Seq<char>, module: Seq<char>|
                b.sources.contains(module) && #[trigger] watches_module(b.projects[i], file, module);
            assert(c.projects[i] == b.projects[i]);
            assert(b.sources.contains(module));
            assert(c.sources.contains(module));
            assert(watches_module(c.projects[i], file, module));
        }
    }
}

/// Every project that comes of a stack file watches a stack file, and the configurations and the
/// terraform files of a module that is noted as one.
pub proof fn law_expansion_watches_modules(
    w: World,
    stack_file: Seq<char>,
    inherited: Option<ValueView>,
    base: Option<Seq<char>>,
    depth: nat,
    opts: ResolveOptions,
    visited: Seq<Seq<char>>,
    st: ExpandView,
)
    requires
        is_tidy(w, st),
    ensures
        modular(st, expanded(w, stack_file, inherited, base, depth, opts, visited, st)),
    decreases room(opts, depth), 3nat, 0nat,
{
    let target = real_path(w, stack_file);
    let after = expanded(w, stack_file, inherited, base, depth, opts, visited, st);
    if !visited.contains(target) && (w.stack)(stack_file) is Ok && parent_of(stack_file) is Some {
        let parsed = (w.stack)(stack_file)->Ok_0;
        let dir = parent_of(stack_file)->0;
        let (around, events) = match inherited {
            Some(v) => (Some(v), Seq::empty()),
            None => values_around(w, dir, opts),
        };
        let outer = match around {
            Some(v) => v,
            None => empty_object_view(),
        };
        let (locals, calls) = stack_locals(w, stack_file, dir, opts, outer, parsed.body);
        let site = SiteView {
            stack_file,
            base: match base {
                Some(b) => b,
                None => dir,
            },
            context: stack_context(stack_file, dir, opts, outer, Some(locals)),
            outer,
            depth,
            visited: visited.push(target),
        };
        let start = noted(st, events + calls);
        lemma_noted(w, st, events + calls);
        lemma_modular_units(w, site, opts, parsed.units, start);
        assert(modular(st, after)) by {
            assert(start.projects == st.projects);
        }
    } else {
        assert(after.projects == st.projects);
    }
}

proof fn lemma_modular_units(w: World, site: SiteView, opts: ResolveOptions, units: Seq<UnitView>, st: ExpandView)
    requires
        is_tidy(w, st),
    ensures
        modular(st, units_expanded(w, site, opts, units, st)),
    decreases room(opts, site.depth), 2nat, units.len(),
{
    if units.len() > 0 {
        let rest = units.drop_last();
        let mid = units_expanded(w, site, opts, rest, st);
        lemma_modular_units(w, site, opts, rest, st);
        lemma_expanding_units(w, site, opts, rest, st);
        lemma_modular_unit(w, site, opts, units.last(), mid);
        lemma_expanding_unit(w, site, opts, units.last(), mid);
        lemma_modular(st, mid, units_expanded(w, site, opts, units, st));
    }
}

proof fn lemma_modular_put_out(
    w: World,
    site: SiteView,
    unit: UnitView,
    source: Seq<char>,
    bound: Option<ValueView>,
    st: ExpandView,
)
    requires
        st.sources.contains(source),
    ensures
        modular(st, put_out(w, site, unit, source, bound, st)),
{
    let after = put_out(w, site, unit, source, bound, st);
    law_unit_watches_its_module(w, unit_dir_of(site, unit), source, site.stack_file, bound);
    assert forall|i: int| st.projects.len() <= i < after.projects.len() implies watches_one_of(
        #[trigger] after.projects[i],
        after.sources,
    ) by {
        assert(after.sources.contains(source));
        assert(watches_module(after.projects[i], site.stack_file, source));
    }
}

proof fn lemma_modular_unit(w: World, site: SiteView, opts: ResolveOptions, unit: UnitView, st: ExpandView)
    requires
        is_tidy(w, st),
    ensures
        modular(st, unit_expanded(w, site, opts, unit, st)),
    decreases room(opts, site.depth), 1nat, 0nat,
{
    let (found, events) = source_of(w, site, unit);
    let after = unit_expanded(w, site, opts, unit, st);
    match found {
        None => {},
        Some(source) => {
            let (bound, more) = bound_values(w, site, unit);
            let start = noted(st, events + more);
            lemma_noted(w, st, events + more);
            let here = placed(w, site, unit, source, bound, start);
            lemma_placed(w, site, unit, source, bound, start);
            assert(here.projects == st.projects);
            if unit.kind == BlockKind::Stack {
                let followed = stack_followed(w, site, opts, unit, source, here);
                lemma_following_stack(w, site, opts, unit, source, here);
                lemma_modular_stack(w, site, opts, unit, source, here);
                if followed.projects.len() <= here.projects.len() {
                    lemma_modular_put_out(w, site, unit, source, bound, followed);
                }
            } else {
                lemma_modular_put_out(w, site, unit, source, bound, here);
            }
        },
    }
}

proof fn lemma_modular_stack(
    w: World,
    site: SiteView,
    opts: ResolveOptions,
    unit: UnitView,
    source: Seq<char>,
    st: ExpandView,
)
    requires
        is_tidy(w, st),
    ensures
        modular(st, stack_followed(w, site, opts, unit, source, st)),
    decreases room(opts, site.depth), 0nat, 0nat,
{
    let child = joined(source, "terragrunt.stack.hcl"@);
    let after = stack_followed(w, site, opts, unit, source, st);
    if !(w.present)(child) || site.visited.contains(real_path(w, child)) || site.depth + 1 > opts.max_recursion_depth {
        assert(after.projects == st.projects);
    } else {
        let (own, events) = unit_values(w, unit, site.context, site.stack_file);
        let values = match own {
            Some(v) => v,
            None => site.outer,
        };
        let start = noted(st, events);
        lemma_noted(w, st, events);
        law_expansion_watches_modules(
            w,
            real_path(w, child),
            Some(values),
            Some(unit_dir_of(site, unit)),
            site.depth + 1,
            opts,
            site.visited,
            start,
        );
        assert(start.projects == st.projects);
    }
}

/// Over all stack files, every project that is put out watches a stack file, and the configurations and
/// the terraform files of a module that is noted as one.
pub proof fn law_all_units_watch_their_modules(w: World, stack_files: Seq<Seq<char>>, opts: ResolveOptions)
    ensures
        ({
            let st = all_expanded(w, stack_files, opts);
            forall|i: int| 0 <= i < st.projects.len() ==> watches_one_of(#[trigger] st.projects[i], st.sources)
        }),
    decreases stack_files.len(),
{
    if stack_files.len() > 0 {
        let rest = stack_files.drop_last();
        let before = all_expanded(w, rest, opts);
        let after = all_expanded(w, stack_files, opts);
        law_all_units_watch_their_modules(w, rest, opts);
        law_one_project_for_each_directory(w, rest, opts);
        law_expanding_a_file(w, stack_files.last(), None, None, 0, opts, Seq::empty(), before);
        law_expansion_watches_modules(w, stack_files.last(), None, None, 0, opts, Seq::empty(), before);
        assert(modular(nothing_expanded(), before));
        lemma_modular(nothing_expanded(), before, after);
    }
}

// ------------------------------------------------------------- what units are made with

/// All that stands in a stack file is seen from the directory of the file, with the values that the file is reached with and
/// its own locals.
pub proof fn law_stack_file_is_seen_from_its_directory(
    stack_file: Seq<char>,
    dir: Seq<char>,
    opts: ResolveOptions,
    values: ValueView,
    locals: Option<ValueView>,
)
    ensures
        ({
            let c = stack_context(stack_file, dir, opts, values, locals);
            &&& c.config_dir == dir
            &&& c.project_dir == dir
            &&& c.parent_dir == Some(dir)
            &&& c.values == Some(values)
            &&& c.locals == locals
            &&& c.options == opts
            &&& c.stack_file == Some(stack_file)
        }),
{
}

/// The source of a unit is the first path that it resolves to, where that leads; a remote source is no module, and one that
/// does not resolve is none either, which is told.
pub proof fn law_source_of_unit(w: World, site: SiteView, unit: UnitView)
    ensures
        ({
            let (found, events) = source_of(w, site, unit);
            let paths = resolved(w, unit.source, site.context).paths;
            let written_remote = unit.source is Literal && is_remote(unit.source->Literal_0);
            &&& written_remote ==> found is None
            &&& !written_remote && paths.len() > 0 && !is_remote(real_path(w, paths[0])) ==> found == Some(
                real_path(w, paths[0]),
            )
            &&& !written_remote && paths.len() > 0 && is_remote(real_path(w, paths[0])) ==> found is None
            &&& !written_remote && paths.len() == 0 ==> found is None && events.contains(EventView::SourcePathFailure)
            &&& written_remote && unit.kind == BlockKind::Stack ==> events.contains(EventView::RemoteSkipped)
            &&& written_remote && unit.kind == BlockKind::Unit ==> events.len() == 0
        }),
{
    let (found, events) = source_of(w, site, unit);
    let r = resolved(w, unit.source, site.context);
    let written_remote = unit.source is Literal && is_remote(unit.source->Literal_0);
    if written_remote {
        if unit.kind == BlockKind::Stack {
            assert(events[0] == EventView::RemoteSkipped);
        }
    } else if r.paths.len() == 0 {
        if r.events.contains(EventView::SourcePathFailure) {
            let i = choose|i: int| 0 <= i < r.events.len() && r.events[i] == EventView::SourcePathFailure;
            assert(events[i] == EventView::SourcePathFailure);
        } else {
            assert(events.last() == EventView::SourcePathFailure);
            assert(events[events.len() - 1] == EventView::SourcePathFailure);
        }
    }
}

/// The values of a unit are what its expression comes to in the stack file; without an expression it has none of its own, and
/// below the first stack file those that the file is reached with take their place. The calls of file functions that it makes are
/// told, and so is an expression that fails.
pub proof fn law_values_of_unit(w: World, site: SiteView, unit: UnitView, e: ExprView, v: ValueView)
    ensures
        unit.values_expr is None ==> unit_values(w, unit, site.context, site.stack_file).0 is None,
        unit.values_expr == Some(e) && lazily(w, e, scope_of(site.context), Seq::empty()).result == Ok::<ValueView, Seq<char>>(v)
            ==> unit_values(w, unit, site.context, site.stack_file).0 == Some(v) && (site.depth > 0 ==> bound_values(
            w,
            site,
            unit,
        ).0 == Some(v)),
        unit.values_expr == Some(e) && lazily(w, e, scope_of(site.context), Seq::empty()).result is Err ==> unit_values(
            w,
            unit,
            site.context,
            site.stack_file,
        ).0 is None && unit_values(w, unit, site.context, site.stack_file).1.last() is Warning,
        unit.values_expr == Some(e) ==> ({
            let calls = lazily(w, e, scope_of(site.context), Seq::empty()).file_calls;
            let told = unit_values(w, unit, site.context, site.stack_file).1;
            told.len() >= calls.len() && forall|i: int|
                0 <= i < calls.len() ==> #[trigger] told[i] == (EventView::FileCall {
                    function: calls[i],
                    stack_file: site.stack_file,
                })
        }),
        site.depth > 0 && unit_values(w, unit, site.context, site.stack_file).0 is None ==> bound_values(w, site, unit).0
            == Some(site.outer),
{
}

/// What a unit is bound to is kept under its directory, and the bindings of other directories stay.
pub proof fn law_binding_is_kept(
    bindings: Seq<(Seq<char>, BindingView)>,
    key: Seq<char>,
    b: BindingView,
    other: Seq<char>,
    x: BindingView,
)
    requires
        other != key,
    ensures
        with_binding(bindings, key, b).contains((key, b)),
        with_binding(bindings, key, b).contains((other, x)) <==> bindings.contains((other, x)),
    decreases bindings.len(),
{
    let now = with_binding(bindings, key, b);
    if bindings.len() == 0 {
        assert(now[0] == (key, b));
        if now.contains((other, x)) {
            let i = choose|i: int| 0 <= i < now.len() && now[i] == (other, x);
        }
    } else if bindings[0].0 == key {
        assert(now[0] == (key, b));
        if bindings.contains((other, x)) {
            let i = choose|i: int| 0 <= i < bindings.len() && bindings[i] == (other, x);
            assert(now[i] == (other, x));
        }
        if now.contains((other, x)) {
            let i = choose|i: int| 0 <= i < now.len() && now[i] == (other, x);
            assert(bindings[i] == (other, x));
        }
    } else {
        let rest = bindings.skip(1);
        let tail = with_binding(rest, key, b);
        law_binding_is_kept(rest, key, b, other, x);
        let k = choose|k: int| 0 <= k < tail.len() && tail[k] == (key, b);
        assert(now[k + 1] == (key, b));
        if bindings.contains((other, x)) {
            let i = choose|i: int| 0 <= i < bindings.len() && bindings[i] == (other, x);
            if i == 0 {
                assert(now[0] == (other, x));
            } else {
                assert(rest[i - 1] == (other, x));
                let m = choose|m: int| 0 <= m < tail.len() && tail[m] == (other, x);
                assert(now[m + 1] == (other, x));
            }
        }
        if now.contains((other, x)) {
            let i = choose|i: int| 0 <= i < now.len() && now[i] == (other, x);
            if i == 0 {
                assert(bindings[0] == (other, x));
            } else {
                assert(tail[i - 1] == (other, x));
                let m = choose|m: int| 0 <= m < rest.len() && rest[m] == (other, x);
                assert(bindings[m + 1] == (other, x));
            }
        }
    }
}

/// A unit that is placed is bound to its values, with the stack file and the path that declare it; one whose values could not be
/// had is told.
pub proof fn law_placed_unit_is_bound(
    w: World,
    site: SiteView,
    unit: UnitView,
    source: Seq<char>,
    bound: Option<ValueView>,
    st: ExpandView,
)
    ensures
        ({
            let after = placed(w, site, unit, source, bound, st);
            let dir = real_path(w, joined(joined(site.base, ".terragrunt-stack"@), unit.path));
            &&& bound is Some ==> after.bindings.contains(
                (dir, BindingView { values: bound->0, stack_file: site.stack_file, parent_unit_path: unit.path }),
            )
            &&& bound is None ==> after.bindings == st.bindings
            &&& bound is None && unit.values_expr is Some ==> after.events == st.events.push(EventView::ValuesFailure)
            &&& bound is Some || unit.values_expr is None ==> after.events == st.events
        }),
{
    if bound is Some {
        let dir = real_path(w, unit_dir_of(site, unit));
        let b = BindingView { values: bound->0, stack_file: site.stack_file, parent_unit_path: unit.path };
        let other = dir.push('/');
        assert(other.len() != dir.len());
        law_binding_is_kept(st.bindings, dir, b, other, b);
    }
}

/// A `stack` leads into the `terragrunt.stack.hcl` of its source, which generates into the directory of the stack, and is
/// reached with the values of the stack, or else with those that this stack file was reached with.
pub proof fn law_stack_leads_into_child(
    w: World,
    site: SiteView,
    opts: ResolveOptions,
    unit: UnitView,
    source: Seq<char>,
    st: ExpandView,
)
    requires
        (w.present)(joined(source, "terragrunt.stack.hcl"@)),
        !site.visited.contains(real_path(w, joined(source, "terragrunt.stack.hcl"@))),
        site.depth < opts.max_recursion_depth,
    ensures
        ({
            let own = unit_values(w, unit, site.context, site.stack_file);
            stack_followed(w, site, opts, unit, source, st) == expanded(
                w,
                real_path(w, joined(source, "terragrunt.stack.hcl"@)),
                Some(
                    if own.0 is Some {
                        own.0->0
                    } else {
                        site.outer
                    },
                ),
                Some(joined(joined(site.base, ".terragrunt-stack"@), unit.path)),
                site.depth + 1,
                opts,
                site.visited,
                noted(st, own.1),
            )
        }),
{
}

/// The unit directories that are kept are exactly those that lead neither to a module nor to a generated unit.
pub proof fn law_kept_units(w: World, dirs: Seq<Seq<char>>, st: ExpandView, dir: Seq<char>)
    ensures
        own_units(w, dirs, st).contains(dir) <==> dirs.contains(dir) && !st.sources.contains(real_path(w, dir))
            && !st.unit_dirs.contains(real_path(w, dir)),
    decreases dirs.len(),
{
    if dirs.len() > 0 {
        let rest = dirs.drop_last();
        let before = own_units(w, rest, st);
        let now = own_units(w, dirs, st);
        law_kept_units(w, rest, st, dir);
        if dirs.contains(dir) {
            let i = choose|i: int| 0 <= i < dirs.len() && dirs[i] == dir;
            if i < rest.len() {
                assert(rest[i] == dir);
            }
        }
        if rest.contains(dir) {
            let i = choose|i: int| 0 <= i < rest.len() && rest[i] == dir;
            assert(dirs[i] == dir);
        }
        assert(dirs[dirs.len() - 1] == dirs.last());
        if before.contains(dir) {
            let i = choose|i: int| 0 <= i < before.len() && before[i] == dir;
            assert(now[i] == dir);
        }
        if now.contains(dir) {
            let i = choose|i: int| 0 <= i < now.len() && now[i] == dir;
            if i < before.len() {
                assert(before[i] == dir);
            }
        }
        if now.len() > before.len() {
            assert(now[before.len() as int] == dirs.last());
        }
    }
}

// --------------------------------------------------------------- the stacks around a unit

proof fn lemma_marker_at(parts: Seq<PartView>, n: int)
    requires
        0 <= n < parts.len(),
        parts[n] == PartView::Normal(".terragrunt-stack"@),
        forall|i: int| n < i < parts.len() ==> #[trigger] parts[i] != PartView::Normal(".terragrunt-stack"@),
    ensures
        marker_at(parts) == Some(n),
    decreases parts.len(),
{
    if n < parts.len() - 1 {
        assert(parts[parts.len() - 1] != PartView::Normal(".terragrunt-stack"@));
        lemma_marker_at(parts.drop_last(), n);
    }
}

/// A path that is generated by a stack lies behind the last `.terragrunt-stack` in it: the stack stands in front of that, and
/// the names behind it, joined by `/`, lead to the unit.
pub proof fn law_nearest_stack(path: Seq<char>, n: int)
    requires
        0 <= n < path_parts(path).len() - 1,
        path_parts(path)[n] == PartView::Normal(".terragrunt-stack"@),
        forall|i: int| n < i < path_parts(path).len() ==> #[trigger] path_parts(path)[i] is Normal && path_parts(path)[i]
            != PartView::Normal(".terragrunt-stack"@),
    ensures
        nearest_stack(path) is Some,
        ({
            let (stack_dir, rel) = nearest_stack(path)->0;
            &&& stack_dir == path_text(path_parts(path).take(n))
            &&& rel == join_with(
                Seq::new((path_parts(path).len() - n - 1) as nat, |i: int| path_parts(path)[n + 1 + i]->Normal_0),
                "/"@,
            )
        }),
{
    let parts = path_parts(path);
    lemma_marker_at(parts, n);
    let below = parts.skip(n + 1);
    assert forall|i: int| 0 <= i < below.len() implies #[trigger] below[i] is Normal by {
        assert(below[i] == parts[n + 1 + i]);
    }
    lemma_names_of(below);
    assert(names_of(below) =~= Seq::new((parts.len() - n - 1) as nat, |i: int| parts[n + 1 + i]->Normal_0));
}

proof fn lemma_names_of(parts: Seq<PartView>)
    requires
        forall|i: int| 0 <= i < parts.len() ==> #[trigger] parts[i] is Normal,
    ensures
        names_of(parts) == Seq::new(parts.len(), |i: int| parts[i]->Normal_0),
    decreases parts.len(),
{
    if parts.len() > 0 {
        assert(parts[parts.len() - 1] is Normal);
        lemma_names_of(parts.drop_last());
    }
    assert(names_of(parts) =~= Seq::new(parts.len(), |i: int| parts[i]->Normal_0));
}

/// A unit is covered by the block whose path it has, or lies under; of several such blocks by the one with the longest path, and of
/// several of those by the last.
pub proof fn law_covering_block(units: Seq<UnitView>, rel: Seq<char>, k: int)
    requires
        0 <= k < units.len(),
    ensures
        ({
            let hit = rel == units[k].path || (rel.len() > units[k].path.len() && rel.take(units[k].path.len() as int)
                == units[k].path && rel[units[k].path.len() as int] == '/');
            let found = covering(units, rel);
            &&& hit ==> found is Some && units[k].path.len() <= units[found->0].path.len()
            &&& hit && units[k].path.len() == units[found->0].path.len() ==> k <= found->0
            &&& found is Some ==> 0 <= found->0 < units.len() && covers(units[found->0].path, rel)
            &&& covers(units[k].path, rel) <==> hit
        }),
    decreases units.len(),
{
    let path = units[k].path;
    reveal_strlit("/");
    let front = path + "/"@;
    if begins_with(rel, front) {
        assert(rel.subrange(0, front.len() as int) == front);
        assert(rel.take(path.len() as int) =~= path) by {
            assert forall|i: int| 0 <= i < path.len() implies rel[i] == path[i] by {
                assert(rel.subrange(0, front.len() as int)[i] == front[i]);
            }
        }
        assert(rel.subrange(0, front.len() as int)[path.len() as int] == '/');
    }
    if rel.len() > path.len() && rel.take(path.len() as int) == path && rel[path.len() as int] == '/' {
        assert(rel.subrange(0, front.len() as int) =~= front) by {
            assert forall|i: int| 0 <= i < front.len() implies rel[i] == front[i] by {
                if i < path.len() {
                    assert(rel.take(path.len() as int)[i] == path[i]);
                }
            }
        }
    }
    let rest = units.drop_last();
    if rest.len() > 0 {
        law_covering_block(rest, rel, if k < rest.len() {
            k
        } else {
            0
        });
    } else {
        assert(covering(rest, rel) is None);
    }
}

/// The values of a unit inside of nested stacks are found from the outside in: the outermost block with no values around it,
/// and each further one with what the one around it came to.
pub proof fn law_values_come_from_outside_in(w: World, frames: Seq<FrameView>, f: FrameView, opts: ResolveOptions, outer: ValueView)
    requires
        parent_of(f.stack_file) is Some,
        folded(w, frames, opts).0 == Some(outer),
    ensures
        folded(w, Seq::empty(), opts).0 == Some(ValueView::Object(Seq::empty())),
        ({
            let dir = parent_of(f.stack_file)->0;
            let locals = stack_locals(w, f.stack_file, dir, opts, outer, f.body).0;
            folded(w, frames.push(f), opts).0 == unit_values(
                w,
                f.unit,
                stack_context(f.stack_file, dir, opts, outer, Some(locals)),
                f.stack_file,
            ).0
        }),
{
    assert(frames.push(f).drop_last() =~= frames);
}

/// A stack that is not followed says why: its source has no stack file, the file is being expanded already, or it lies too
/// deep; and nothing else changes.
pub proof fn law_unfollowed_stack_is_told(
    w: World,
    site: SiteView,
    opts: ResolveOptions,
    unit: UnitView,
    source: Seq<char>,
    st: ExpandView,
)
    ensures
        ({
            let after = stack_followed(w, site, opts, unit, source, st);
            let child = joined(source, "terragrunt.stack.hcl"@);
            let again = site.visited.contains(real_path(w, child));
            &&& !(w.present)(child) ==> after == (ExpandView { events: st.events.push(EventView::MissingChild), ..st })
            &&& (w.present)(child) && again ==> after == (ExpandView {
                events: st.events.push(EventView::CycleSkipped),
                ..st
            })
            &&& (w.present)(child) && !again && site.depth >= opts.max_recursion_depth ==> after == (ExpandView {
                events: st.events.push(EventView::DepthExceeded),
                ..st
            })
        }),
{
    assert(st.events + seq![EventView::MissingChild] =~= st.events.push(EventView::MissingChild));
    assert(st.events + seq![EventView::CycleSkipped] =~= st.events.push(EventView::CycleSkipped));
    assert(st.events + seq![EventView::DepthExceeded] =~= st.events.push(EventView::DepthExceeded));
}

/// A stack file that cannot be read, or stands nowhere, puts out no project, and a warning says so.
pub proof fn law_unread_stack_file_is_told(
    w: World,
    stack_file: Seq<char>,
    inherited: Option<ValueView>,
    base: Option<Seq<char>>,
    depth: nat,
    opts: ResolveOptions,
    visited: Seq<Seq<char>>,
    st: ExpandView,
)
    requires
        !visited.contains(real_path(w, stack_file)),
        (w.stack)(stack_file) is Err || parent_of(stack_file) is None,
    ensures
        ({
            let after = expanded(w, stack_file, inherited, base, depth, opts, visited, st);
            &&& after.projects == st.projects
            &&& after.sources == st.sources
            &&& after.unit_dirs == st.unit_dirs
            &&& after.events.len() == st.events.len() + 1
            &&& after.events.last() is Warning
        }),
{
}

/// A unit that a first stack file declares is bound to what the stacks around its directory give it.
pub proof fn law_first_stack_file_looks_around(w: World, site: SiteView, unit: UnitView)
    requires
        site.depth == 0,
    ensures
        bound_values(w, site, unit).0 == values_around(
            w,
            joined(joined(site.base, ".terragrunt-stack"@), unit.path),
            site.context.options,
        ).0,
{
}

/// The stacks around a directory are found from the inside out: the nearest one is the last, where its stack file declares what
/// covers the directory, and those around that one come before it. There is none where no stack generates the directory, and none
/// where the stack file declares nothing that covers it.
pub proof fn law_stacks_around(w: World, dir: Seq<char>)
    ensures
        nearest_stack(dir) is None ==> frames_around(w, dir).0.len() == 0,
        nearest_stack(dir) is Some ==> ({
            let (stack_dir, rel) = nearest_stack(dir)->0;
            let file = joined(stack_dir, "terragrunt.stack.hcl"@);
            let frames = frames_around(w, dir).0;
            &&& (w.stack)(file) is Err ==> frames.len() == 0
            &&& (w.stack)(file) is Ok && covering((w.stack)(file)->Ok_0.units, rel) is None ==> frames.len() == 0
            &&& (w.stack)(file) is Ok && covering((w.stack)(file)->Ok_0.units, rel) is Some && path_parts(stack_dir).len()
                < path_parts(dir).len() ==> frames.len() > 0 && frames.last().stack_file == file && frames.last().unit == (w.stack)(
                file,
            )->Ok_0.units[covering((w.stack)(file)->Ok_0.units, rel)->0] && frames.last().body == (w.stack)(file)->Ok_0.body
                && frames.drop_last() == frames_around(w, stack_dir).0
        }),
{
    if nearest_stack(dir) is Some {
        let (stack_dir, rel) = nearest_stack(dir)->0;
        let file = joined(stack_dir, "terragrunt.stack.hcl"@);
        let frames = frames_around(w, dir).0;
        if (w.stack)(file) is Ok && covering((w.stack)(file)->Ok_0.units, rel) is Some && path_parts(stack_dir).len()
            < path_parts(dir).len() {
            assert(frames.drop_last() =~= frames_around(w, stack_dir).0);
        }
    }
}

/// A stack file is expanded among those that are being expanded, itself the last of them, with its units in their order, seen
/// from its own directory, at its own depth; what its units generate goes to the base where one is given, and else beside it.
pub proof fn law_stack_file_is_expanded_in_its_place(
    w: World,
    stack_file: Seq<char>,
    outer: ValueView,
    base: Option<Seq<char>>,
    depth: nat,
    opts: ResolveOptions,
    visited: Seq<Seq<char>>,
    st: ExpandView,
)
    requires
        !visited.contains(real_path(w, stack_file)),
        (w.stack)(stack_file) is Ok,
        parent_of(stack_file) is Some,
    ensures
        exists|site: SiteView, start: ExpandView|
            #![trigger units_expanded(w, site, opts, (w.stack)(stack_file)->Ok_0.units, start)]
            expanded(w, stack_file, Some(outer), base, depth, opts, visited, st) == units_expanded(
                w,
                site,
                opts,
                (w.stack)(stack_file)->Ok_0.units,
                start,
            ) && site.stack_file == stack_file && site.depth == depth && site.outer == outer && site.visited == visited.push(
                real_path(w, stack_file),
            ) && (base is Some ==> site.base == base->0) && (base is None ==> site.base == parent_of(stack_file)->0)
                && site.context.config_dir == parent_of(stack_file)->0 && site.context.project_dir == parent_of(stack_file)->0
                && site.context.values == Some(outer) && site.context.locals is Some && site.context.options == opts
                && start.projects == st.projects && start.sources == st.sources && start.unit_dirs == st.unit_dirs && start.leaves
                == st.leaves,
{
    let parsed = (w.stack)(stack_file)->Ok_0;
    let dir = parent_of(stack_file)->0;
    let (locals, calls) = stack_locals(w, stack_file, dir, opts, outer, parsed.body);
    let site = SiteView {
        stack_file,
        base: match base {
            Some(b) => b,
            None => dir,
        },
        context: stack_context(stack_file, dir, opts, outer, Some(locals)),
        outer,
        depth,
        visited: visited.push(real_path(w, stack_file)),
    };
    let start = noted(st, Seq::empty() + calls);
    assert(expanded(w, stack_file, Some(outer), base, depth, opts, visited, st) == units_expanded(
        w,
        site,
        opts,
        (w.stack)(stack_file)->Ok_0.units,
        start,
    ));
}

/// The locals of a stack file are evaluated from its own directory with the values that it is reached with; where they cannot be
/// evaluated, there are none.
pub proof fn law_locals_of_stack_file(
    w: World,
    stack_file: Seq<char>,
    dir: Seq<char>,
    opts: ResolveOptions,
    values: ValueView,
    body: ContentsView,
)
    ensures
        ({
            let s = ScopeView {
                values,
                locals: ValueView::Object(Seq::empty()),
                terragrunt_dir: dir,
                parent_dir: Some(dir),
                strict: opts.strict,
            };
            let r = locals_of(w, body, s).result;
            &&& r is Ok ==> stack_locals(w, stack_file, dir, opts, values, body).0 == r->Ok_0
            &&& r is Err ==> stack_locals(w, stack_file, dir, opts, values, body).0 == ValueView::Object(Seq::empty())
        }),
{
}

/// A stack file that is reached from no other is expanded with what the stacks around its directory give, or with nothing.
pub proof fn law_first_stack_file_takes_values_around(
    w: World,
    stack_file: Seq<char>,
    depth: nat,
    opts: ResolveOptions,
    visited: Seq<Seq<char>>,
    st: ExpandView,
)
    requires
        !visited.contains(real_path(w, stack_file)),
        (w.stack)(stack_file) is Ok,
        parent_of(stack_file) is Some,
    ensures
        ({
            let around = values_around(w, parent_of(stack_file)->0, opts);
            expanded(w, stack_file, None, None, depth, opts, visited, st) == expanded(
                w,
                stack_file,
                Some(
                    if around.0 is Some {
                        around.0->0
                    } else {
                        ValueView::Object(Seq::empty())
                    },
                ),
                None,
                depth,
                opts,
                visited,
                noted(st, around.1),
            )
        }),
{
    let dir = parent_of(stack_file)->0;
    let around = values_around(w, dir, opts);
    let outer = if around.0 is Some {
        around.0->0
    } else {
        ValueView::Object(Seq::empty())
    };
    let calls = stack_locals(w, stack_file, dir, opts, outer, (w.stack)(stack_file)->Ok_0.body).1;
    let x = noted(st, around.1 + calls);
    let y = noted(noted(st, around.1), Seq::empty() + calls);
    assert(x.events =~= y.events);
}

/// The stack files are expanded one after the other, each at the top, with none being expanded, and behind what came before.
pub proof fn law_stack_files_in_turn(w: World, stack_files: Seq<Seq<char>>, file: Seq<char>, opts: ResolveOptions)
    ensures
        all_expanded(w, stack_files.push(file), opts) == expanded(
            w,
            file,
            None,
            None,
            0,
            opts,
            Seq::empty(),
            all_expanded(w, stack_files, opts),
        ),
        all_expanded(w, Seq::empty(), opts).projects.len() == 0,
        all_expanded(w, Seq::empty(), opts).events.len() == 0,
{
    assert(stack_files.push(file).drop_last() =~= stack_files);
}

/// The units of a stack file are expanded in the order in which they are declared.
pub proof fn law_units_in_turn(w: World, site: SiteView, opts: ResolveOptions, units: Seq<UnitView>, unit: UnitView, st: ExpandView)
    ensures
        units_expanded(w, site, opts, units.push(unit), st) == unit_expanded(
            w,
            site,
            opts,
            unit,
            units_expanded(w, site, opts, units, st),
        ),
        units_expanded(w, site, opts, Seq::empty(), st) == st,
{
    assert(units.push(unit).drop_last() =~= units);
}

/// A `stack` that puts out projects is not put out itself; one that puts out none is, like a `unit`, and watches the stack file and
/// its module.
pub proof fn law_empty_stack_is_put_out(w: World, site: SiteView, opts: ResolveOptions, unit: UnitView, st: ExpandView)
    requires
        unit.kind == BlockKind::Stack,
        source_of(w, site, unit).0 is Some,
    ensures
        ({
            let source = source_of(w, site, unit).0->0;
            let (bound, more) = bound_values(w, site, unit);
            let here = placed(w, site, unit, source, bound, noted(st, source_of(w, site, unit).1 + more));
            let inside = stack_followed(w, site, opts, unit, source, here);
            let after = unit_expanded(w, site, opts, unit, st);
            let dir = joined(joined(site.base, ".terragrunt-stack"@), unit.path);
            &&& here.projects == st.projects
            &&& inside.projects.len() > st.projects.len() ==> after == inside
            &&& inside.projects == st.projects && !inside.leaves.contains(real_path(w, dir)) ==> after.projects.len()
                == st.projects.len() + 1 && after.projects.last().dir == dir && watches_module(
                after.projects.last(),
                site.stack_file,
                source,
            )
        }),
{
    let source = source_of(w, site, unit).0->0;
    let (bound, more) = bound_values(w, site, unit);
    law_unit_watches_its_module(w, unit_dir_of(site, unit), source, site.stack_file, bound);
}

} // verus!
