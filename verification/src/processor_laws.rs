//! What holds of every project that is processed.

#[allow(unused_imports)]
use crate::parser::{DepView, DependencyKind, PathView};
#[allow(unused_imports)]
use crate::path::{
    is_plain, joined, lemma_ordered_paths, lemma_path_parts_proper, ordered_paths, parent_of, path_parts, path_text,
    same_parts, PartView,
};
#[allow(unused_imports)]
use crate::processor::{
    adds_to, config_context, dependency_name, followed, is_skipped, last_two, part_texts, project_name, telling_names, law_loading_only_adds, lemma_following_only_adds, loaded,
    next_via, nothing_loaded, project_of, real_path, recorded, target_context, DependencyStyle, ErrorView, LoadView,
    PlanView, Via,
};
#[allow(unused_imports)]
use crate::resolver::{resolved, ContextView, ResolveOptions};
#[allow(unused_imports)]
use crate::text::{join_with, lemma_ordered, ordered, underscored};
#[allow(unused_imports)]
use crate::world::World;
use vstd::prelude::*;

verus! {

/// The directory that a configuration stands in.
pub open spec fn home_of(plan: PlanView, config: Seq<char>) -> Seq<char> {
    match parent_of(config) {
        Some(p) => p,
        None => plan.project_dir,
    }
}

/// Where `dep`, in a configuration that stands in `home`, leads to: relative paths are seen from
/// `home`, everything else from the project that is processed.
pub open spec fn leads_to(w: World, plan: PlanView, home: Seq<char>, dep: DepView, t: Seq<char>) -> bool {
    let paths = resolved(
        w,
        dep.path,
        ContextView {
            config_dir: home,
            project_dir: plan.project_dir,
            values: plan.values,
            locals: None,
            parent_dir: None,
            options: ResolveOptions { strict: false, max_recursion_depth: 32 },
            stack_file: None,
        },
    ).paths;
    paths.len() > 0 && paths[0] == t
}

/// Where the project that `dep` names is: seen from the configuration, or, of a unit that is generated
/// at another place than its module, from that place.
pub open spec fn depends_on(w: World, plan: PlanView, home: Seq<char>, own: bool, dep: DepView, t: Seq<char>) -> bool {
    let paths = resolved(
        w,
        dep.path,
        ContextView {
            config_dir: if own && plan.unit_dir is Some {
                plan.unit_dir->0
            } else {
                home
            },
            project_dir: if plan.unit_dir is Some {
                plan.unit_dir->0
            } else {
                plan.project_dir
            },
            values: plan.values,
            locals: None,
            parent_dir: None,
            options: ResolveOptions { strict: false, max_recursion_depth: 32 },
            stack_file: None,
        },
    ).paths;
    paths.len() > 0 && paths[0] == t
}

/// The dependency has left its mark: a project that is depended on is recorded; anything else is
/// watched, and, where it is a configuration, was visited.
pub open spec fn is_followed(w: World, plan: PlanView, home: Seq<char>, own: bool, dep: DepView, st: LoadView) -> bool {
    if dep.kind == DependencyKind::Project {
        forall|t: Seq<char>| #[trigger]
            depends_on(w, plan, home, own, dep, t) ==> if plan.style == DependencyStyle::Path {
                st.dependencies.contains(t)
            } else {
                st.dependencies.contains(dependency_name(t, plan.project_dir))
            }
    } else {
        forall|t: Seq<char>| #[trigger]
            leads_to(w, plan, home, dep, t) ==> st.watch_files.contains(t) && (dep.kind == DependencyKind::Include
                || dep.kind == DependencyKind::ReadConfig ==> st.visited.contains(real_path(w, t)))
    }
}

/// All that the configuration at `config` names is followed.
pub open spec fn is_covered(w: World, plan: PlanView, config: Seq<char>, own: bool, st: LoadView) -> bool {
    (w.present)(config) ==> (w.config)(config) is Ok && forall|k: int|
        0 <= k < (w.config)(config)->Ok_0.deps.len() ==> is_followed(
            w,
            plan,
            home_of(plan, config),
            own,
            #[trigger] (w.config)(config)->Ok_0.deps[k],
            st,
        )
}

/// Each configuration that was visited between `a` and `b` is covered.
pub open spec fn all_covered(w: World, plan: PlanView, a: LoadView, b: LoadView) -> bool {
    forall|r: Seq<char>| #[trigger]
        b.visited.contains(r) && !a.visited.contains(r) ==> exists|config: Seq<char>, own: bool|
            real_path(w, config) == r && #[trigger] is_covered(w, plan, config, own, b)
}

proof fn lemma_taken<T>(a: Seq<T>, b: Seq<T>)
    requires
        a.len() <= b.len(),
        b.take(a.len() as int) == a,
    ensures
        forall|x: T| #[trigger] a.contains(x) ==> b.contains(x),
{
    assert forall|x: T| #[trigger] a.contains(x) implies b.contains(x) by {
        let i = choose|i: int| 0 <= i < a.len() && a[i] == x;
        assert(b.take(a.len() as int)[i] == x);
        assert(b[i] == x);
    }
}

proof fn lemma_keeps(a: LoadView, b: LoadView)
    requires
        adds_to(a, b),
    ensures
        forall|x: Seq<char>| #[trigger] a.visited.contains(x) ==> b.visited.contains(x),
        forall|x: Seq<char>| #[trigger] a.watch_files.contains(x) ==> b.watch_files.contains(x),
        forall|x: Seq<char>| #[trigger] a.dependencies.contains(x) ==> b.dependencies.contains(x),
{
    lemma_taken(a.visited, b.visited);
    lemma_taken(a.watch_files, b.watch_files);
    lemma_taken(a.dependencies, b.dependencies);
}

proof fn lemma_followed_keeps(
    w: World,
    plan: PlanView,
    home: Seq<char>,
    own: bool,
    dep: DepView,
    a: LoadView,
    b: LoadView,
)
    requires
        adds_to(a, b),
        is_followed(w, plan, home, own, dep, a),
    ensures
        is_followed(w, plan, home, own, dep, b),
{
    lemma_keeps(a, b);
}

proof fn lemma_covered_keeps(w: World, plan: PlanView, config: Seq<char>, own: bool, a: LoadView, b: LoadView)
    requires
        adds_to(a, b),
        is_covered(w, plan, config, own, a),
    ensures
        is_covered(w, plan, config, own, b),
{
    if (w.present)(config) {
        let deps = (w.config)(config)->Ok_0.deps;
        assert forall|k: int| 0 <= k < deps.len() implies is_followed(
            w,
            plan,
            home_of(plan, config),
            own,
            #[trigger] deps[k],
            b,
        ) by {
            lemma_followed_keeps(w, plan, home_of(plan, config), own, deps[k], a, b);
        }
    }
}

proof fn lemma_all_covered(w: World, plan: PlanView, a: LoadView, b: LoadView, c: LoadView)
    requires
        adds_to(b, c),
        all_covered(w, plan, a, b),
        all_covered(w, plan, b, c),
    ensures
        all_covered(w, plan, a, c),
{
    assert forall|r: Seq<char>| #[trigger]
        c.visited.contains(r) && !a.visited.contains(r) implies exists|config: Seq<char>, own: bool|
        real_path(w, config) == r && #[trigger] is_covered(w, plan, config, own, c) by {
        if b.visited.contains(r) {
            let (config, own) = choose|config: Seq<char>, own: bool|
                real_path(w, config) == r && #[trigger] is_covered(w, plan, config, own, b);
            lemma_covered_keeps(w, plan, config, own, b, c);
        }
    }
}

proof fn lemma_contexts(w: World, plan: PlanView, home: Seq<char>, own: bool, dep: DepView)
    ensures
        forall|t: Seq<char>| #[trigger]
            leads_to(w, plan, home, dep, t) <==> crate::resolver::first_of(
                resolved(w, dep.path, config_context(plan, home)).paths,
            ) == Some(t),
        forall|t: Seq<char>| #[trigger]
            depends_on(w, plan, home, own, dep, t) <==> crate::resolver::first_of(
                resolved(w, dep.path, target_context(plan, home, own)).paths,
            ) == Some(t),
{
}

/// A configuration that is loaded has all that it names followed, and so has every configuration
/// that it leads to: each file that is included, read, or used as a module is watched, whatever
/// names it and however far down; each configuration among them is visited; and each project that is
/// depended on is recorded.
pub proof fn law_what_is_named_is_followed(
    w: World,
    plan: PlanView,
    path: Seq<char>,
    via: Via,
    st: LoadView,
    depth: nat,
)
    requires
        st.visited.no_duplicates(),
        loaded(w, plan, path, via, st, depth) is Ok,
    ensures
        ({
            let after = loaded(w, plan, path, via, st, depth)->Ok_0;
            &&& after.visited.contains(real_path(w, path))
            &&& !st.visited.contains(real_path(w, path)) ==> is_covered(w, plan, path, via == Via::Own, after)
            &&& all_covered(w, plan, st, after)
        }),
    decreases depth, 0nat,
{
    if depth > 0 && !st.visited.contains(real_path(w, path)) {
        let here = LoadView { visited: st.visited.push(real_path(w, path)), ..st };
        let after = loaded(w, plan, path, via, st, depth)->Ok_0;
        assert(here.visited.no_duplicates());
        assert(here.visited[st.visited.len() as int] == real_path(w, path));
        if (w.present)(path) {
            let config = (w.config)(path)->Ok_0;
            let start = LoadView {
                has_source: here.has_source || (via != Via::Read && config.has_terraform_source),
                ..here
            };
            lemma_named_is_followed(w, plan, home_of(plan, path), via, config.deps, start, (depth - 1) as nat);
            lemma_following_only_adds(w, plan, home_of(plan, path), via, config.deps, start, (depth - 1) as nat);
            lemma_keeps(start, after);
            assert(start.visited.contains(real_path(w, path)));
        }
        assert(is_covered(w, plan, path, via == Via::Own, after));
        assert forall|r: Seq<char>| #[trigger]
            after.visited.contains(r) && !st.visited.contains(r) implies exists|config: Seq<char>, own: bool|
            real_path(w, config) == r && #[trigger] is_covered(w, plan, config, own, after) by {
            if r != real_path(w, path) {
                assert(!here.visited.contains(r)) by {
                    if here.visited.contains(r) {
                        let i = choose|i: int| 0 <= i < here.visited.len() && here.visited[i] == r;
                        assert(i < st.visited.len());
                        assert(st.visited[i] == r);
                    }
                }
            }
        }
    }
}

proof fn lemma_named_is_followed(
    w: World,
    plan: PlanView,
    home: Seq<char>,
    via: Via,
    deps: Seq<DepView>,
    st: LoadView,
    depth: nat,
)
    requires
        st.visited.no_duplicates(),
        followed(w, plan, home, via, deps, st, depth) is Ok,
    ensures
        ({
            let after = followed(w, plan, home, via, deps, st, depth)->Ok_0;
            &&& all_covered(w, plan, st, after)
            &&& forall|k: int|
                0 <= k < deps.len() ==> is_followed(w, plan, home, via == Via::Own, #[trigger] deps[k], after)
        }),
    decreases depth, deps.len() + 1,
{
    if deps.len() > 0 {
        let own = via == Via::Own;
        let rest = deps.drop_last();
        let dep = deps.last();
        lemma_named_is_followed(w, plan, home, via, rest, st, depth);
        lemma_following_only_adds(w, plan, home, via, rest, st, depth);
        let now = followed(w, plan, home, via, rest, st, depth)->Ok_0;
        let after = followed(w, plan, home, via, deps, st, depth)->Ok_0;
        lemma_contexts(w, plan, home, own, dep);
        assert(now.visited.take(now.visited.len() as int) =~= now.visited);
        assert(now.dependencies.take(now.dependencies.len() as int) =~= now.dependencies);
        assert(now.watch_files.take(now.watch_files.len() as int) =~= now.watch_files);
        if dep.kind == DependencyKind::Project {
            let found = crate::resolver::first_of(resolved(w, dep.path, target_context(plan, home, own)).paths);
            if found is Some {
                let more = now.dependencies.push(recorded(plan, found->0));
                assert(more.take(now.dependencies.len() as int) =~= now.dependencies);
                assert(more[now.dependencies.len() as int] == recorded(plan, found->0));
                assert(after.dependencies.contains(recorded(plan, found->0)));
            }
            assert(adds_to(now, after));
            assert(all_covered(w, plan, now, after));
        } else {
            let found = crate::resolver::first_of(resolved(w, dep.path, config_context(plan, home)).paths);
            if found is Some {
                let t = found->0;
                let watched = LoadView { watch_files: now.watch_files.push(t), ..now };
                assert(watched.watch_files.take(now.watch_files.len() as int) =~= now.watch_files);
                assert(watched.watch_files[now.watch_files.len() as int] == t);
                assert(watched.watch_files.contains(t));
                if dep.kind == DependencyKind::Include || dep.kind == DependencyKind::ReadConfig {
                    law_loading_only_adds(w, plan, t, next_via(via, dep.kind), watched, depth);
                    law_what_is_named_is_followed(w, plan, t, next_via(via, dep.kind), watched, depth);
                    lemma_keeps(watched, after);
                    assert(all_covered(w, plan, now, after)) by {
                        assert forall|r: Seq<char>| #[trigger]
                            after.visited.contains(r) && !now.visited.contains(r) implies exists|
                            config: Seq<char>,
                            own: bool,
                        |
                            real_path(w, config) == r && #[trigger] is_covered(w, plan, config, own, after) by {
                            assert(!watched.visited.contains(r));
                        }
                    }
                    assert(adds_to(now, watched));
                    crate::processor::lemma_adds_to(now, watched, after);
                }
            }
            assert(adds_to(now, after));
            assert(all_covered(w, plan, now, after));
        }
        lemma_all_covered(w, plan, st, now, after);
        assert forall|k: int| 0 <= k < deps.len() implies is_followed(w, plan, home, own, #[trigger] deps[k], after) by {
            if k < rest.len() {
                assert(rest[k] == deps[k]);
                lemma_followed_keeps(w, plan, home, own, rest[k], now, after);
            }
        }
    }
}

/// The project that comes out has the directory that was asked for; it watches each file that its own
/// configuration, or one that this leads to, includes, reads, or uses as a module; it names each
/// project that one of them depends on; and a module that its own configuration uses is noted.
pub proof fn law_project_shows_what_is_named(w: World, dir: Seq<char>, plan: PlanView)
    requires
        project_of(w, dir, plan) is Ok,
    ensures
        ({
            let own = joined(dir, "terragrunt.hcl"@);
            let st = loaded(w, plan, own, Via::Own, nothing_loaded(), usize::MAX as nat)->Ok_0;
            let p = project_of(w, dir, plan)->Ok_0;
            &&& p.dir == dir
            &&& is_covered(w, plan, own, true, st)
            &&& forall|r: Seq<char>| #[trigger]
                st.visited.contains(r) ==> exists|config: Seq<char>, first: bool|
                    real_path(w, config) == r && #[trigger] is_covered(w, plan, config, first, st)
            &&& forall|t: Seq<char>| #[trigger]
                st.watch_files.contains(t) ==> exists|i: int|
                    0 <= i < p.watch_files.len() && path_parts(#[trigger] p.watch_files[i]) == path_parts(t)
            &&& forall|t: Seq<char>| #[trigger] st.dependencies.contains(t) <==> p.project_dependencies.contains(t)
            &&& (w.present)(own) && (w.config)(own)->Ok_0.has_terraform_source ==> p.has_terraform_source
        }),
{
    let own = joined(dir, "terragrunt.hcl"@);
    let st = loaded(w, plan, own, Via::Own, nothing_loaded(), usize::MAX as nat)->Ok_0;
    let p = project_of(w, dir, plan)->Ok_0;
    law_what_is_named_is_followed(w, plan, own, Via::Own, nothing_loaded(), usize::MAX as nat);
    assert forall|r: Seq<char>| #[trigger] st.visited.contains(r) implies exists|config: Seq<char>, first: bool|
        real_path(w, config) == r && #[trigger] is_covered(w, plan, config, first, st) by {
        assert(!nothing_loaded().visited.contains(r));
    }
    lemma_ordered_paths(st.watch_files);
    lemma_ordered(st.dependencies);
    assert forall|t: Seq<char>| #[trigger] st.watch_files.contains(t) implies exists|i: int|
        0 <= i < p.watch_files.len() && path_parts(#[trigger] p.watch_files[i]) == path_parts(t) by {
        let i = choose|i: int| 0 <= i < st.watch_files.len() && st.watch_files[i] == t;
        assert(same_parts(st.watch_files[i], t));
        assert(crate::path::has_path(st.watch_files, t));
        assert(crate::path::has_path(p.watch_files, t));
        let j = choose|j: int| 0 <= j < p.watch_files.len() && same_parts(#[trigger] p.watch_files[j], t);
        assert(path_parts(p.watch_files[j]) == path_parts(t));
    }
    if (w.present)(own) && (w.config)(own)->Ok_0.has_terraform_source {
        let config = (w.config)(own)->Ok_0;
        let here = nothing_loaded().visited.push(real_path(w, own));
        let start = LoadView { visited: here, has_source: true, ..nothing_loaded() };
        lemma_following_only_adds(w, plan, home_of(plan, own), Via::Own, config.deps, start, (usize::MAX - 1) as nat);
    }
}

/// Some configuration includes, reads, or uses as a module what is at `t`.
pub open spec fn is_used(w: World, plan: PlanView, t: Seq<char>) -> bool {
    exists|config: Seq<char>, k: int|
        #![trigger (w.config)(config)->Ok_0.deps[k]]
        (w.present)(config) && (w.config)(config) is Ok && 0 <= k < (w.config)(config)->Ok_0.deps.len()
            && (w.config)(config)->Ok_0.deps[k].kind != DependencyKind::Project && leads_to(
            w,
            plan,
            home_of(plan, config),
            (w.config)(config)->Ok_0.deps[k],
            t,
        )
}

/// Some configuration depends on the project at `t`.
pub open spec fn is_needed(w: World, plan: PlanView, t: Seq<char>) -> bool {
    exists|config: Seq<char>, k: int, own: bool|
        #![trigger depends_on(w, plan, home_of(plan, config), own, (w.config)(config)->Ok_0.deps[k], t)]
        (w.present)(config) && (w.config)(config) is Ok && 0 <= k < (w.config)(config)->Ok_0.deps.len()
            && (w.config)(config)->Ok_0.deps[k].kind == DependencyKind::Project && depends_on(
            w,
            plan,
            home_of(plan, config),
            own,
            (w.config)(config)->Ok_0.deps[k],
            t,
        )
}

/// What `b` holds beyond `a` is named in some configuration.
pub open spec fn only_named(w: World, plan: PlanView, a: LoadView, b: LoadView) -> bool {
    &&& forall|t: Seq<char>| #[trigger] b.watch_files.contains(t) ==> a.watch_files.contains(t) || is_used(w, plan, t)
    &&& forall|n: Seq<char>| #[trigger]
        b.dependencies.contains(n) ==> a.dependencies.contains(n) || exists|t: Seq<char>| #[trigger]
            is_needed(w, plan, t) && n == (if plan.style == DependencyStyle::Path {
                t
            } else {
                dependency_name(t, plan.project_dir)
            })
    &&& b.has_source ==> a.has_source || exists|config: Seq<char>|
        (w.present)(config) && (#[trigger] (w.config)(config)) is Ok && (w.config)(config)->Ok_0.has_terraform_source
}

/// Nothing is watched or recorded that no configuration names; and a configuration that is only read
/// gives the project no module.
pub proof fn law_only_what_is_named_is_shown(
    w: World,
    plan: PlanView,
    path: Seq<char>,
    via: Via,
    st: LoadView,
    depth: nat,
)
    requires
        loaded(w, plan, path, via, st, depth) is Ok,
    ensures
        only_named(w, plan, st, loaded(w, plan, path, via, st, depth)->Ok_0),
        (via == Via::Read) ==> loaded(w, plan, path, via, st, depth)->Ok_0.has_source == st.has_source,
    decreases depth, 0nat,
{
    if depth > 0 && !st.visited.contains(real_path(w, path)) && (w.present)(path) {
        let config = (w.config)(path)->Ok_0;
        let start = LoadView {
            visited: st.visited.push(real_path(w, path)),
            has_source: st.has_source || (via != Via::Read && config.has_terraform_source),
            ..st
        };
        assert(config.deps.take(config.deps.len() as int) =~= config.deps);
        assert((w.config)(path) is Ok);
        lemma_only_named(w, plan, path, via, config.deps.len() as int, start, (depth - 1) as nat);
    }
}

proof fn lemma_only_named(w: World, plan: PlanView, path: Seq<char>, via: Via, n: int, st: LoadView, depth: nat)
    requires
        (w.present)(path),
        (w.config)(path) is Ok,
        0 <= n <= (w.config)(path)->Ok_0.deps.len(),
        followed(w, plan, home_of(plan, path), via, (w.config)(path)->Ok_0.deps.take(n), st, depth) is Ok,
    ensures
        ({
            let after = followed(w, plan, home_of(plan, path), via, (w.config)(path)->Ok_0.deps.take(n), st, depth)->Ok_0;
            &&& only_named(w, plan, st, after)
            &&& via == Via::Read ==> after.has_source == st.has_source
        }),
    decreases depth, n + 1,
{
    if n > 0 {
        let deps = (w.config)(path)->Ok_0.deps;
        let home = home_of(plan, path);
        let own = via == Via::Own;
        let dep = deps[n - 1];
        assert(deps.take(n).drop_last() =~= deps.take(n - 1));
        assert(deps.take(n).last() == dep);
        lemma_only_named(w, plan, path, via, n - 1, st, depth);
        let now = followed(w, plan, home, via, deps.take(n - 1), st, depth)->Ok_0;
        let after = followed(w, plan, home, via, deps.take(n), st, depth)->Ok_0;
        lemma_contexts(w, plan, home, own, dep);
        if dep.kind == DependencyKind::Project {
            let found = crate::resolver::first_of(resolved(w, dep.path, target_context(plan, home, own)).paths);
            if found is Some {
                assert(depends_on(w, plan, home_of(plan, path), own, (w.config)(path)->Ok_0.deps[n - 1], found->0));
                assert(is_needed(w, plan, found->0));
                lemma_pushed(now.dependencies, recorded(plan, found->0));
            }
        } else {
            let found = crate::resolver::first_of(resolved(w, dep.path, config_context(plan, home)).paths);
            if found is Some {
                let t = found->0;
                assert(leads_to(w, plan, home, (w.config)(path)->Ok_0.deps[n - 1], t));
                assert(is_used(w, plan, t));
                lemma_pushed(now.watch_files, t);
                let watched = LoadView { watch_files: now.watch_files.push(t), ..now };
                assert(only_named(w, plan, st, watched));
                if dep.kind == DependencyKind::Include || dep.kind == DependencyKind::ReadConfig {
                    law_only_what_is_named_is_shown(w, plan, t, next_via(via, dep.kind), watched, depth);
                }
            }
        }
    }
}

proof fn lemma_pushed<T>(s: Seq<T>, x: T)
    ensures
        forall|y: T| #[trigger] s.push(x).contains(y) ==> s.contains(y) || y == x,
{
    assert forall|y: T| #[trigger] s.push(x).contains(y) implies s.contains(y) || y == x by {
        let i = choose|i: int| 0 <= i < s.push(x).len() && s.push(x)[i] == y;
        if i < s.len() {
            assert(s[i] == y);
        }
    }
}

// ------------------------------------------------------------------------- names

/// A directory below another is named like it, with its own name behind an underscore; a name that says nothing adds
/// nothing; and a directory that says nothing at all is unknown.
pub proof fn law_project_name_follows_directory(a: Seq<char>, b: Seq<char>, x: Seq<char>)
    requires
        path_parts(b) == path_parts(a).push(PartView::Normal(x)),
    ensures
        ({
            let says_nothing = x == "live"@ || x == "terragrunt"@ || x == "infrastructure"@ || x == "infra"@ || x == "repo"@
                || x == "projects"@;
            &&& says_nothing ==> project_name(b) == project_name(a)
            &&& !says_nothing && telling_names(path_parts(a)).len() > 0 ==> project_name(b) == project_name(a) + "_"@ + x
            &&& !says_nothing && telling_names(path_parts(a)).len() == 0 ==> project_name(b) == x && project_name(a)
                == "unknown"@
        }),
{
    assert(path_parts(b).drop_last() =~= path_parts(a));
    let before = telling_names(path_parts(a));
    if !is_skipped(x) {
        assert(telling_names(path_parts(b)) == before.push(x));
        assert(before.push(x).drop_last() =~= before);
        if before.len() == 0 {
            assert(before.push(x) =~= seq![x]);
        }
    }
}

/// A project beside another is named by what leads to it from there, with underscores; one that lies elsewhere by the
/// last two names of its path.
pub proof fn law_dependency_name(dep: Seq<char>, project_dir: Seq<char>, base: Seq<char>, x: Seq<char>, y: Seq<char>)
    requires
        parent_of(project_dir) == Some(base),
        is_plain(dep),
        !x.contains('\\'),
        !y.contains('\\'),
    ensures
        path_parts(dep) == path_parts(base).push(PartView::Normal(x)) ==> dependency_name(dep, project_dir) == x,
        path_parts(dep) == path_parts(base).push(PartView::Normal(x)).push(PartView::Normal(y)) ==> dependency_name(
            dep,
            project_dir,
        ) == x + "_"@ + y,
        !path_parts(base).is_prefix_of(path_parts(dep)) && path_parts(dep).len() > 2 && path_parts(dep).last()
            == PartView::Normal(y) && path_parts(dep)[path_parts(dep).len() - 2] == PartView::Normal(x) ==> dependency_name(
            dep,
            project_dir,
        ) == x + "_"@ + y,
{
    let parts = path_parts(dep);
    let front = path_parts(base);
    let n = front.len() as int;
    lemma_path_parts_proper(dep);
    reveal_strlit("_");
    assert("_"@ =~= seq!['_']);
    reveal_with_fuel(path_text, 3);
    if parts == front.push(PartView::Normal(x)) {
        assert(parts.subrange(0, n) =~= front);
        let rest = parts.skip(n);
        assert(rest =~= seq![PartView::Normal(x)]);
        assert(rest.drop_last() =~= Seq::empty());
        assert(parts[n] == PartView::Normal(x));
        assert(path_text(rest) =~= x);
        assert forall|i: int| 0 <= i < x.len() implies x[i] != '/' && x[i] != '\\' by {
            assert(x.contains(x[i]));
        }
        assert(underscored(x) =~= x);
    }
    if parts == front.push(PartView::Normal(x)).push(PartView::Normal(y)) {
        assert(parts.subrange(0, n) =~= front);
        let rest = parts.skip(n);
        assert(rest =~= seq![PartView::Normal(x), PartView::Normal(y)]);
        let one = rest.drop_last();
        assert(one =~= seq![PartView::Normal(x)]);
        assert(one.drop_last() =~= Seq::empty());
        assert(parts[n] == PartView::Normal(x));
        assert(parts[n + 1] == PartView::Normal(y));
        assert(path_text(one) =~= x);
        assert(path_text(rest) =~= x + seq!['/'] + y);
        assert forall|i: int| 0 <= i < x.len() implies x[i] != '/' && x[i] != '\\' by {
            assert(x.contains(x[i]));
        }
        assert forall|i: int| 0 <= i < y.len() implies y[i] != '/' && y[i] != '\\' by {
            assert(y.contains(y[i]));
        }
        assert(underscored(x + seq!['/'] + y) =~= x + seq!['_'] + y);
    }
    if !front.is_prefix_of(parts) && parts.len() > 2 && parts.last() == PartView::Normal(y) && parts[parts.len() - 2]
        == PartView::Normal(x) {
        let two = last_two(part_texts(parts));
        assert(two =~= seq![x, y]);
        assert(two.drop_last() =~= seq![x]);
        assert(join_with(seq![x], "_"@) == x);
        assert(join_with(two, "_"@) == x + "_"@ + y);
    }
}

// ---------------------------------------------------------------------- modules

/// A path stands for what it leads to, and for itself where it leads nowhere.
pub proof fn law_paths_lead(w: World, path: Seq<char>)
    ensures
        (w.canonical)(path) is Some ==> real_path(w, path) == (w.canonical)(path)->0,
        (w.canonical)(path) is None ==> real_path(w, path) == path,
{
}

proof fn lemma_followed_part(
    w: World,
    plan: PlanView,
    home: Seq<char>,
    via: Via,
    deps: Seq<DepView>,
    st: LoadView,
    depth: nat,
    k: int,
)
    requires
        st.visited.no_duplicates(),
        0 <= k <= deps.len(),
        followed(w, plan, home, via, deps, st, depth) is Ok,
    ensures
        followed(w, plan, home, via, deps.take(k), st, depth) is Ok,
        adds_to(
            followed(w, plan, home, via, deps.take(k), st, depth)->Ok_0,
            followed(w, plan, home, via, deps, st, depth)->Ok_0,
        ),
    decreases deps.len(),
{
    let after = followed(w, plan, home, via, deps, st, depth)->Ok_0;
    if k == deps.len() {
        assert(deps.take(k) =~= deps);
        assert(after.visited.take(after.visited.len() as int) =~= after.visited);
        assert(after.dependencies.take(after.dependencies.len() as int) =~= after.dependencies);
        assert(after.watch_files.take(after.watch_files.len() as int) =~= after.watch_files);
    } else {
        let rest = deps.drop_last();
        assert(rest.take(k) =~= deps.take(k));
        lemma_followed_part(w, plan, home, via, rest, st, depth, k);
        let now = followed(w, plan, home, via, rest, st, depth)->Ok_0;
        lemma_following_only_adds(w, plan, home, via, rest, st, depth);
        lemma_last_dep_adds(w, plan, home, via, deps, st, depth);
        crate::processor::lemma_adds_to(followed(w, plan, home, via, deps.take(k), st, depth)->Ok_0, now, after);
    }
}

proof fn lemma_last_dep_adds(
    w: World,
    plan: PlanView,
    home: Seq<char>,
    via: Via,
    deps: Seq<DepView>,
    st: LoadView,
    depth: nat,
)
    requires
        deps.len() > 0,
        followed(w, plan, home, via, deps, st, depth) is Ok,
        followed(w, plan, home, via, deps.drop_last(), st, depth) is Ok,
        followed(w, plan, home, via, deps.drop_last(), st, depth)->Ok_0.visited.no_duplicates(),
    ensures
        adds_to(
            followed(w, plan, home, via, deps.drop_last(), st, depth)->Ok_0,
            followed(w, plan, home, via, deps, st, depth)->Ok_0,
        ),
{
    let now = followed(w, plan, home, via, deps.drop_last(), st, depth)->Ok_0;
    let one = seq![deps.last()];
    assert(one.drop_last() =~= Seq::<DepView>::empty());
    assert(followed(w, plan, home, via, Seq::empty(), now, depth) == Ok::<LoadView, ErrorView>(now));
    assert(followed(w, plan, home, via, one, now, depth) == followed(w, plan, home, via, deps, st, depth));
    lemma_following_only_adds(w, plan, home, via, one, now, depth);
}

/// A module that an included configuration uses is the project's own: where the project's configuration, or one that it
/// includes, includes a configuration that was not visited before and that uses a module, the project has one.
pub proof fn law_included_module_counts(
    w: World,
    plan: PlanView,
    path: Seq<char>,
    via: Via,
    st: LoadView,
    depth: nat,
    k: int,
    t: Seq<char>,
)
    requires
        (via != Via::Read),
        st.visited.no_duplicates(),
        loaded(w, plan, path, via, st, depth) is Ok,
        depth > 1,
        !st.visited.contains(real_path(w, path)),
        (w.present)(path),
        ({
            let config = (w.config)(path)->Ok_0;
            let start = LoadView {
                visited: st.visited.push(real_path(w, path)),
                has_source: st.has_source || config.has_terraform_source,
                ..st
            };
            let now = followed(w, plan, home_of(plan, path), via, config.deps.take(k), start, (depth - 1) as nat)->Ok_0;
            &&& 0 <= k < config.deps.len()
            &&& config.deps[k].kind == DependencyKind::Include
            &&& leads_to(w, plan, home_of(plan, path), config.deps[k], t)
            &&& !now.visited.contains(real_path(w, t))
            &&& (w.present)(t)
            &&& (w.config)(t)->Ok_0.has_terraform_source
        }),
    ensures
        loaded(w, plan, path, via, st, depth)->Ok_0.has_source,
{
    let config = (w.config)(path)->Ok_0;
    let deps = config.deps;
    let home = home_of(plan, path);
    let start = LoadView {
        visited: st.visited.push(real_path(w, path)),
        has_source: st.has_source || config.has_terraform_source,
        ..st
    };
    let less = (depth - 1) as nat;
    assert(start.visited.no_duplicates());
    lemma_followed_part(w, plan, home, via, deps, start, less, k);
    lemma_followed_part(w, plan, home, via, deps, start, less, k + 1);
    assert(deps.take(k + 1).drop_last() =~= deps.take(k));
    assert(deps.take(k + 1).last() == deps[k]);
    lemma_contexts(w, plan, home, via == Via::Own, deps[k]);
    lemma_following_only_adds(w, plan, home, via, deps.take(k), start, less);
    let now = followed(w, plan, home, via, deps.take(k), start, less)->Ok_0;
    let watched = LoadView { watch_files: now.watch_files.push(t), ..now };
    let next = followed(w, plan, home, via, deps.take(k + 1), start, less)->Ok_0;
    assert(loaded(w, plan, t, Via::Include, watched, less) == Ok::<LoadView, ErrorView>(next));
    let inner = (w.config)(t)->Ok_0;
    let begun = LoadView { visited: watched.visited.push(real_path(w, t)), has_source: true, ..watched };
    assert(begun.visited.no_duplicates());
    lemma_following_only_adds(w, plan, home_of(plan, t), Via::Include, inner.deps, begun, (less - 1) as nat);
    assert(next.has_source);
}

// ---------------------------------------------------------------------- failures

/// A project whose configuration cannot be parsed fails with the reason; one that has no configuration is empty.
pub proof fn law_own_configuration_decides(w: World, dir: Seq<char>, plan: PlanView)
    ensures
        ({
            let own = joined(dir, "terragrunt.hcl"@);
            let r = project_of(w, dir, plan);
            &&& (w.present)(own) && (w.config)(own) is Err ==> r == Err::<crate::project::ProjectView, ErrorView>(
                ErrorView::ParseError((w.config)(own)->Err_0),
            )
            &&& !(w.present)(own) ==> r is Ok && r->Ok_0.project_dependencies.len() == 0 && r->Ok_0.watch_files.len() == 0
                && !r->Ok_0.has_terraform_source
            &&& (w.present)(own) && (w.config)(own) is Ok && (w.config)(own)->Ok_0.deps.len() == 0 ==> r is Ok
                && r->Ok_0.project_dependencies.len() == 0 && r->Ok_0.watch_files.len() == 0 && r->Ok_0.has_terraform_source
                == (w.config)(own)->Ok_0.has_terraform_source
        }),
{
}

/// A configuration that is included or read and cannot be parsed fails the project that needs it, with the reason.
pub proof fn law_broken_inclusion_fails(
    w: World,
    plan: PlanView,
    path: Seq<char>,
    via: Via,
    st: LoadView,
    depth: nat,
)
    requires
        depth > 0,
        !st.visited.contains(real_path(w, path)),
        (w.present)(path),
        (w.config)(path) is Err,
    ensures
        loaded(w, plan, path, via, st, depth) == Err::<LoadView, ErrorView>(ErrorView::ParseError((w.config)(path)->Err_0)),
{
}

} // verus!
