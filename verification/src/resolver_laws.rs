//! What holds of every path that is resolved.

#[allow(unused_imports)]
use crate::builtins::entry;
#[allow(unused_imports)]
use crate::hcl_eval::lazily;
#[allow(unused_imports)]
use crate::parser::PathView;
#[allow(unused_imports)]
use crate::path::{
    has_root, is_plain, joined, lemma_parts_of_joined, lemma_parts_of_text, lemma_path_parts_proper, lemma_root_part,
    parent_of, path_parts, path_text, piece_parts, proper, PartView,
};
#[allow(unused_imports)]
use crate::resolver::{
    at_most_one, expr_text, fill_one, filled, first_of, first_paths, from_config_dir, in_parent_folders, is_normal,
    lemma_normal_parts, lemma_normal_stays, lemma_normal_then_names, normal_parts, normalized, parents_of, repo_root_of,
    resolved, root_from, scope_of, spliced, up_asks, up_from, value_at, ContextView, EventView, ResolvedView,
};
#[allow(unused_imports)]
use crate::syntax::{ExprView, ValueView};
#[allow(unused_imports)]
use crate::text::split_on;
#[allow(unused_imports)]
use crate::world::{QueryView, World};
use vstd::prelude::*;

verus! {

/// `get_terragrunt_dir()` is the directory of the project that is processed, and one path, in whichever
/// configuration it stands: it is the same in any two contexts of one project.
pub proof fn law_terragrunt_dir_is_the_project(w: World, c: ContextView, d: ContextView)
    requires
        c.project_dir == d.project_dir,
    ensures
        resolved(w, PathView::GetTerragruntDir, c).paths.len() == 1,
        resolved(w, PathView::GetTerragruntDir, c).paths[0] == c.project_dir,
        resolved(w, PathView::GetTerragruntDir, d).paths == resolved(w, PathView::GetTerragruntDir, c).paths,
        scope_of(c).terragrunt_dir == c.project_dir,
        scope_of(d).terragrunt_dir == scope_of(c).terragrunt_dir,
{
}

/// The searches upward begin at the project that is processed, in whichever configuration they stand.
pub proof fn law_searches_begin_at_the_project(w: World, c: ContextView, d: ContextView, name: Option<Seq<char>>)
    requires
        c.project_dir == d.project_dir,
    ensures
        resolved(w, PathView::FindInParentFolders(name), c) == resolved(w, PathView::FindInParentFolders(name), d),
        resolved(w, PathView::GetRepoRoot, c) == resolved(w, PathView::GetRepoRoot, d),
{
}

/// The directory `n` steps above `dir`.
pub open spec fn above(dir: Seq<char>, n: nat) -> Option<Seq<char>>
    decreases n,
{
    if n == 0 {
        Some(dir)
    } else {
        match above(dir, (n - 1) as nat) {
            Some(d) => parent_of(d),
            None => None,
        }
    }
}

/// The file `name` stands `n` steps above `dir`.
pub open spec fn stands_above(w: World, dir: Seq<char>, name: Seq<char>, n: nat) -> bool {
    above(dir, n) is Some && (w.present)(joined(above(dir, n)->0, name))
}

proof fn lemma_above_again(dir: Seq<char>, n: nat)
    requires
        parent_of(dir) is Some,
    ensures
        above(dir, n + 1) == above(parent_of(dir)->0, n),
    decreases n,
{
    if n > 0 {
        lemma_above_again(dir, (n - 1) as nat);
    } else {
        reveal_with_fuel(above, 2);
    }
}

proof fn lemma_nothing_above(dir: Seq<char>, n: nat)
    requires
        parent_of(dir) is None,
    ensures
        above(dir, n + 1) is None,
    decreases n,
{
    reveal_with_fuel(above, 2);
    if n > 0 {
        lemma_nothing_above(dir, (n - 1) as nat);
    }
}

proof fn lemma_plain_parent(dir: Seq<char>)
    requires
        is_plain(dir),
        parent_of(dir) is Some,
    ensures
        is_plain(parent_of(dir)->0),
        path_parts(parent_of(dir)->0) == path_parts(dir).drop_last(),
{
    let parts = path_parts(dir);
    lemma_path_parts_proper(dir);
    let less = parts.drop_last();
    assert(proper(less)) by {
        assert forall|i: int| 0 <= i < less.len() implies #[trigger] less[i] == parts[i] by {}
    }
    lemma_parts_of_text(less);
}

proof fn lemma_up_from(w: World, dir: Seq<char>, name: Seq<char>) -> (n: nat)
    ensures
        up_from(w, dir, name) is Some ==> stands_above(w, dir, name, n) && up_from(w, dir, name)->0 == joined(
            above(dir, n)->0,
            name,
        ) && forall|m: nat| m < n ==> !#[trigger] stands_above(w, dir, name, m),
        up_from(w, dir, name) is None && is_plain(dir) ==> forall|m: nat| !#[trigger] stands_above(w, dir, name, m),
    decreases path_parts(dir).len(),
{
    assert(above(dir, 0) == Some(dir));
    if (w.present)(joined(dir, name)) {
        assert(stands_above(w, dir, name, 0));
        0
    } else {
        assert(!stands_above(w, dir, name, 0));
        match parent_of(dir) {
            Some(p) => {
                if path_parts(p).len() < path_parts(dir).len() {
                    let k = lemma_up_from(w, p, name);
                    let n = k + 1;
                    assert forall|m: nat| m > 0 implies #[trigger] stands_above(w, dir, name, m) == stands_above(
                        w,
                        p,
                        name,
                        (m - 1) as nat,
                    ) by {
                        lemma_above_again(dir, (m - 1) as nat);
                    }
                    if up_from(w, dir, name) is Some {
                        lemma_above_again(dir, k);
                        assert(stands_above(w, dir, name, n));
                        assert forall|m: nat| m < n implies !#[trigger] stands_above(w, dir, name, m) by {
                            if m > 0 {
                                assert(!stands_above(w, p, name, (m - 1) as nat));
                            }
                        }
                    } else if is_plain(dir) {
                        lemma_plain_parent(dir);
                        assert forall|m: nat| !#[trigger] stands_above(w, dir, name, m) by {
                            if m > 0 {
                                assert(!stands_above(w, p, name, (m - 1) as nat));
                            }
                        }
                    }
                    n
                } else {
                    if is_plain(dir) {
                        lemma_plain_parent(dir);
                    }
                    0
                }
            },
            None => {
                assert forall|m: nat| !#[trigger] stands_above(w, dir, name, m) by {
                    if m > 0 {
                        lemma_nothing_above(dir, (m - 1) as nat);
                    }
                }
                0
            },
        }
    }
}

/// The name that is looked for: `terragrunt.hcl` where none is given.
pub open spec fn wanted_name(wanted: Option<Seq<char>>) -> Seq<char> {
    match wanted {
        Some(name) => name,
        None => "terragrunt.hcl"@,
    }
}

/// `find_in_parent_folders` finds the nearest file of the name above the project, never one beside its
/// own configuration, and finds one wherever there is one; without a name it looks for
/// `terragrunt.hcl`.
pub proof fn law_found_is_nearest(w: World, c: ContextView, wanted: Option<Seq<char>>) -> (n: nat)
    ensures
        ({
            let paths = resolved(w, PathView::FindInParentFolders(wanted), c).paths;
            let name = wanted_name(wanted);
            &&& paths.len() <= 1
            &&& paths.len() == 1 ==> n > 0 && stands_above(w, c.project_dir, name, n) && paths[0] == joined(
                above(c.project_dir, n)->0,
                name,
            ) && forall|m: nat| 0 < m < n ==> !#[trigger] stands_above(w, c.project_dir, name, m)
            &&& paths.len() == 0 && is_plain(c.project_dir) ==> forall|m: nat|
                m > 0 ==> !#[trigger] stands_above(w, c.project_dir, name, m)
        }),
{
    let dir = c.project_dir;
    let name = wanted_name(wanted);
    match parent_of(dir) {
        Some(p) => {
            let k = lemma_up_from(w, p, name);
            assert forall|m: nat| m > 0 implies #[trigger] stands_above(w, dir, name, m) == stands_above(
                w,
                p,
                name,
                (m - 1) as nat,
            ) by {
                lemma_above_again(dir, (m - 1) as nat);
            }
            lemma_above_again(dir, k);
            assert(stands_above(w, dir, name, k + 1) == stands_above(w, p, name, k));
            if is_plain(dir) {
                lemma_plain_parent(dir);
            }
            assert(resolved(w, PathView::FindInParentFolders(wanted), c).paths == at_most_one(up_from(w, p, name)));
            assert forall|m: nat| 0 < m < k + 1 && up_from(w, p, name) is Some implies !#[trigger] stands_above(w, dir, name, m) by {
                assert(!stands_above(w, p, name, (m - 1) as nat));
            }
            assert forall|m: nat| m > 0 && up_from(w, p, name) is None && is_plain(dir) implies !#[trigger] stands_above(w, dir, name, m) by {
                assert(!stands_above(w, p, name, (m - 1) as nat));
            }
            k + 1
        },
        None => {
            assert forall|m: nat| m > 0 implies !#[trigger] stands_above(w, dir, name, m) by {
                lemma_nothing_above(dir, (m - 1) as nat);
            }
            0
        },
    }
}

proof fn lemma_root_from(w: World, dir: Seq<char>) -> (n: nat)
    ensures
        root_from(w, dir) is Some ==> above(dir, n) == root_from(w, dir) && stands_above(w, dir, ".git"@, n) && (forall|
            m: nat,
        |
            m <= n ==> !#[trigger] stands_above(w, dir, ".gitboundary"@, m)) && (forall|m: nat|
            m < n ==> !#[trigger] stands_above(w, dir, ".git"@, m)),
        root_from(w, dir) is None && is_plain(dir) ==> forall|m: nat| #[trigger]
            stands_above(w, dir, ".git"@, m) ==> exists|k: nat|
                k <= m && #[trigger] stands_above(w, dir, ".gitboundary"@, k),
    decreases path_parts(dir).len(),
{
    let git = ".git"@;
    let wall = ".gitboundary"@;
    assert(above(dir, 0) == Some(dir));
    assert(stands_above(w, dir, wall, 0) == (w.present)(joined(dir, wall)));
    assert(stands_above(w, dir, git, 0) == (w.present)(joined(dir, git)));
    if (w.present)(joined(dir, wall)) || (w.present)(joined(dir, git)) {
        0
    } else {
        match parent_of(dir) {
            Some(p) => {
                if is_plain(dir) {
                    lemma_plain_parent(dir);
                }
                if path_parts(p).len() < path_parts(dir).len() {
                    let k = lemma_root_from(w, p);
                    assert forall|m: nat| m > 0 implies #[trigger] stands_above(w, dir, git, m) == stands_above(
                        w,
                        p,
                        git,
                        (m - 1) as nat,
                    ) by {
                        lemma_above_again(dir, (m - 1) as nat);
                    }
                    assert forall|m: nat| m > 0 implies #[trigger] stands_above(w, dir, wall, m) == stands_above(
                        w,
                        p,
                        wall,
                        (m - 1) as nat,
                    ) by {
                        lemma_above_again(dir, (m - 1) as nat);
                    }
                    lemma_above_again(dir, k);
                    assert(stands_above(w, dir, git, k + 1) == stands_above(w, p, git, k));
                    if root_from(w, dir) is Some {
                        assert forall|m: nat| m <= k + 1 implies !#[trigger] stands_above(w, dir, wall, m) by {
                            if m > 0 {
                                assert(!stands_above(w, p, wall, (m - 1) as nat));
                            }
                        }
                        assert forall|m: nat| m < k + 1 implies !#[trigger] stands_above(w, dir, git, m) by {
                            if m > 0 {
                                assert(!stands_above(w, p, git, (m - 1) as nat));
                            }
                        }
                    } else if is_plain(dir) {
                        assert forall|m: nat| #[trigger] stands_above(w, dir, git, m) implies exists|j: nat|
                            j <= m && #[trigger] stands_above(w, dir, wall, j) by {
                            assert(stands_above(w, p, git, (m - 1) as nat));
                            let j = choose|j: nat| j <= m - 1 && #[trigger] stands_above(w, p, wall, j);
                            assert(stands_above(w, dir, wall, j + 1) == stands_above(w, p, wall, j));
                        }
                    }
                    k + 1
                } else {
                    0
                }
            },
            None => {
                assert forall|m: nat| !#[trigger] stands_above(w, dir, git, m) by {
                    if m > 0 {
                        lemma_nothing_above(dir, (m - 1) as nat);
                    }
                }
                0
            },
        }
    }
}

/// `get_repo_root()` is the nearest directory, the project's own or one above it, that holds `.git`,
/// unless a `.gitboundary` stands in it or before it; and there is a root wherever such a directory is.
pub proof fn law_repo_root_is_nearest(w: World, c: ContextView) -> (n: nat)
    requires
        !(w.is_file)(c.project_dir),
    ensures
        ({
            let dir = c.project_dir;
            let paths = resolved(w, PathView::GetRepoRoot, c).paths;
            &&& paths.len() <= 1
            &&& paths.len() == 1 ==> above(dir, n) == Some(paths[0]) && stands_above(w, dir, ".git"@, n) && (forall|m: nat|
                m <= n ==> !#[trigger] stands_above(w, dir, ".gitboundary"@, m)) && (forall|m: nat|
                m < n ==> !#[trigger] stands_above(w, dir, ".git"@, m))
            &&& paths.len() == 0 && is_plain(dir) ==> forall|m: nat| #[trigger]
                stands_above(w, dir, ".git"@, m) ==> exists|k: nat|
                    k <= m && #[trigger] stands_above(w, dir, ".gitboundary"@, k)
        }),
{
    lemma_root_from(w, c.project_dir)
}

// -------------------------------------------------------------- written paths

/// A written path is seen from the directory of the configuration that it stands in: down from there,
/// where it is made of names.
pub proof fn law_written_path_leads_down(w: World, c: ContextView, t: Seq<char>)
    requires
        c.config_dir.len() > 0,
        is_normal(path_parts(c.config_dir)),
        !has_root(t),
        forall|i: int| 0 <= i < piece_parts(split_on(t, '/')).len() ==> #[trigger] piece_parts(split_on(t, '/'))[i] is Normal,
    ensures
        resolved(w, PathView::Literal(t), c).paths.len() == 1,
        path_parts(resolved(w, PathView::Literal(t), c).paths[0]) == path_parts(c.config_dir) + piece_parts(split_on(t, '/')),
{
    let base = path_parts(c.config_dir);
    let names = piece_parts(split_on(t, '/'));
    lemma_parts_of_joined(c.config_dir, t);
    lemma_normal_stays(base);
    lemma_normal_then_names(base, names);
    lemma_path_parts_proper(joined(c.config_dir, t));
    lemma_normal_parts(path_parts(joined(c.config_dir, t)));
    lemma_parts_of_text(base + names);
}

/// A written path that goes up one step is seen from the directory above that of the configuration.
pub proof fn law_written_path_leads_up(w: World, c: ContextView, t: Seq<char>)
    requires
        c.config_dir.len() > 0,
        is_normal(path_parts(c.config_dir)),
        path_parts(c.config_dir).len() > 0,
        path_parts(c.config_dir).last() is Normal,
        !has_root(t),
        piece_parts(split_on(t, '/')).len() > 0,
        piece_parts(split_on(t, '/'))[0] is ParentDir,
        forall|i: int| 0 < i < piece_parts(split_on(t, '/')).len() ==> #[trigger] piece_parts(split_on(t, '/'))[i] is Normal,
    ensures
        resolved(w, PathView::Literal(t), c).paths.len() == 1,
        path_parts(resolved(w, PathView::Literal(t), c).paths[0]) == path_parts(c.config_dir).drop_last() + piece_parts(
            split_on(t, '/'),
        ).skip(1),
{
    let base = path_parts(c.config_dir);
    let pieces = piece_parts(split_on(t, '/'));
    let names = pieces.skip(1);
    let up = base.push(PartView::ParentDir);
    lemma_parts_of_joined(c.config_dir, t);
    lemma_normal_stays(base);
    assert(up.drop_last() =~= base);
    assert(normal_parts(up) == base.drop_last());
    assert(base + pieces =~= up + names);
    assert forall|i: int| 0 <= i < names.len() implies #[trigger] names[i] is Normal by {
        assert(names[i] == pieces[i + 1]);
    }
    lemma_normal_then_names(up, names);
    lemma_path_parts_proper(joined(c.config_dir, t));
    lemma_normal_parts(path_parts(joined(c.config_dir, t)));
    lemma_parts_of_text(base.drop_last() + names);
}

/// A path that is written from the root stays, whatever the context.
pub proof fn law_written_root_stays(w: World, c: ContextView, t: Seq<char>)
    requires
        has_root(t),
        is_normal(path_parts(t)),
        is_plain(t),
    ensures
        resolved(w, PathView::Literal(t), c).paths == seq![t],
{
    lemma_normal_stays(path_parts(t));
}

/// What a value, or an expression, comes to is seen from where a path of the same text is.
pub proof fn law_values_are_written_paths(w: World, c: ContextView, key: Seq<char>, e: ExprView, t: Seq<char>)
    ensures
        c.values is Some && c.values->0 is Object && entry(c.values->0->Object_0, key) == Some(ValueView::String(t))
            ==> resolved(w, PathView::ValuesRef(seq![key]), c).paths == resolved(w, PathView::Literal(t), c).paths,
        c.values is None ==> resolved(w, PathView::ValuesRef(seq![key]), c).paths.len() == 0,
        lazily(w, e, scope_of(c), Seq::empty()).result == Ok::<ValueView, Seq<char>>(ValueView::String(t)) ==> resolved(
            w,
            PathView::HclExpr(Box::new(e)),
            c,
        ).paths == resolved(w, PathView::Literal(t), c).paths,
{
    reveal_with_fuel(value_at, 2);
}

/// Keys lead through objects one after the other.
pub proof fn law_keys_lead_through_objects(
    w: World,
    c: ContextView,
    inner: ContextView,
    key: Seq<char>,
    keys: Seq<Seq<char>>,
)
    requires
        c.config_dir == inner.config_dir,
        c.values is Some,
        c.values->0 is Object,
        entry(c.values->0->Object_0, key) is Some,
        inner.values == entry(c.values->0->Object_0, key),
    ensures
        resolved(w, PathView::ValuesRef(seq![key] + keys), c).paths == resolved(w, PathView::ValuesRef(keys), inner).paths,
{
    assert((seq![key] + keys).skip(1) =~= keys);
}

/// An expression is evaluated with the values and locals that are bound, and with nothing where nothing is
/// bound.
pub proof fn law_scope_holds_what_is_bound(c: ContextView)
    ensures
        c.values is Some ==> scope_of(c).values == c.values->0,
        c.values is None ==> scope_of(c).values == ValueView::Object(Seq::empty()),
        c.locals is Some ==> scope_of(c).locals == c.locals->0,
        c.locals is None ==> scope_of(c).locals == ValueView::Object(Seq::empty()),
        scope_of(c).parent_dir == c.parent_dir,
        scope_of(c).strict == c.options.strict,
{
}

// ------------------------------------------------------------- composed paths

/// `dirname` is the directory that what is inside lies in, and both branches of a condition are possible, the
/// first branch first.
pub proof fn law_dirname_and_branches(w: World, c: ContextView, inner: PathView, other: PathView)
    ensures
        resolved(w, inner, c).paths.len() == 1 && parent_of(resolved(w, inner, c).paths[0]) is Some ==> resolved(
            w,
            PathView::Dirname(Box::new(inner)),
            c,
        ).paths == seq![parent_of(resolved(w, inner, c).paths[0])->0],
        resolved(w, inner, c).paths.len() == 1 && parent_of(resolved(w, inner, c).paths[0]) is None ==> resolved(
            w,
            PathView::Dirname(Box::new(inner)),
            c,
        ).paths.len() == 0,
        resolved(w, inner, c).paths.len() == 0 ==> resolved(w, PathView::Dirname(Box::new(inner)), c).paths.len() == 0,
        resolved(w, PathView::Dirname(Box::new(inner)), c).events == resolved(w, inner, c).events,
        resolved(
            w,
            PathView::Conditional { true_branch: Box::new(inner), false_branch: Box::new(other) },
            c,
        ).paths == resolved(w, inner, c).paths + resolved(w, other, c).paths,
        resolved(
            w,
            PathView::Conditional { true_branch: Box::new(inner), false_branch: Box::new(other) },
            c,
        ).events == resolved(w, inner, c).events + resolved(w, other, c).events,
{
    reveal_with_fuel(parents_of, 2);
    let paths = resolved(w, inner, c).paths;
    if paths.len() == 1 {
        assert(paths.drop_last() =~= Seq::empty());
        assert(parents_of(paths.drop_last()) =~= Seq::empty());
        if parent_of(paths[0]) is Some {
            assert(parents_of(paths) =~= seq![parent_of(paths[0])->0]);
        }
    }
}

/// What cannot be known leads nowhere, and nothing is made up for it.
pub proof fn law_unknown_leads_nowhere(w: World, c: ContextView, func: Seq<char>)
    ensures
        resolved(w, PathView::Unresolvable { func }, c).paths.len() == 0,
        resolved(w, PathView::GetParentTerragruntDir, c).paths.len() == 0,
        resolved(w, PathView::PathRelativeToInclude, c).paths.len() == 0,
        resolved(w, PathView::PathRelativeFromInclude, c).paths.len() == 0,
        resolved(w, PathView::Interpolation(Seq::empty()), c).paths.len() == 0,
{
}

/// A text that is put together is what its parts are, one behind the other: a literal stands for itself, and
/// anything else for the first path that it leads to; and where one part leads nowhere, so does the whole.
pub proof fn law_interpolation_is_put_together(w: World, c: ContextView, a: PathView, text: Seq<char>)
    requires
        !(a is Literal),
        !(a is HclExpr),
    ensures
        ({
            let whole = resolved(w, PathView::Interpolation(seq![a, PathView::Literal(text)]), c).paths;
            &&& resolved(w, a, c).paths.len() > 0 ==> whole == seq![normalized(resolved(w, a, c).paths[0] + text)]
            &&& resolved(w, a, c).paths.len() == 0 ==> whole.len() == 0
        }),
        ({
            let whole = resolved(w, PathView::Interpolation(seq![PathView::Literal(text), a]), c).paths;
            &&& resolved(w, a, c).paths.len() > 0 ==> whole == seq![normalized(text + resolved(w, a, c).paths[0])]
            &&& resolved(w, a, c).paths.len() == 0 ==> whole.len() == 0
        }),
        resolved(w, PathView::Interpolation(seq![PathView::Literal(text)]), c).paths == seq![normalized(text)],
{
    let lit = PathView::Literal(text);
    let none = Seq::<PathView>::empty();
    let e = Seq::<char>::empty();
    assert(spliced(w, none, c).0 == Some(e));
    assert(seq![a].drop_last() =~= none);
    assert(seq![lit].drop_last() =~= none);
    assert(e + text =~= text);
    assert(spliced(w, seq![lit], c).0 == Some(text));
    let r = resolved(w, a, c).paths;
    if r.len() > 0 {
        assert(e + r[0] =~= r[0]);
        assert(spliced(w, seq![a], c).0 == Some(r[0]));
    } else {
        assert(spliced(w, seq![a], c).0 is None);
    }
    let x = seq![a, lit];
    let y = seq![lit, a];
    assert(x.drop_last() =~= seq![a]);
    assert(y.drop_last() =~= seq![lit]);
    assert(x.last() == lit);
    assert(y.last() == a);
    if r.len() > 0 {
        assert(spliced(w, x, c).0 == Some(r[0] + text));
        assert(spliced(w, y, c).0 == Some(text + r[0]));
    } else {
        assert(spliced(w, x, c).0 is None);
        assert(spliced(w, y, c).0 is None);
    }
}

/// The first `%s` of a text is filled, and nothing else.
pub proof fn law_first_verb_is_filled(front: Seq<char>, rest: Seq<char>, arg: Seq<char>)
    requires
        !front.contains('%'),
    ensures
        fill_one(front + seq!['%', 's'] + rest, arg) == front + arg + rest,
        fill_one(front, arg) == front,
    decreases front.len(),
{
    let all = front + seq!['%', 's'] + rest;
    if front.len() == 0 {
        assert(all.skip(2) =~= rest);
        assert(front + arg + rest =~= arg + rest);
    } else {
        let tail = front.skip(1);
        assert(front.contains(front[0]));
        assert(!tail.contains('%')) by {
            if tail.contains('%') {
                let i = choose|i: int| 0 <= i < tail.len() && tail[i] == '%';
                assert(front[i + 1] == '%');
            }
        }
        law_first_verb_is_filled(tail, rest, arg);
        assert(all.skip(1) =~= tail + seq!['%', 's'] + rest);
        assert(seq![front[0]] + (tail + arg + rest) =~= front + arg + rest);
        assert(seq![front[0]] + tail =~= front);
    }
}

/// `format` with one argument puts the first path of the argument in for `%s`; what comes of it is seen from
/// where a path of the same text is.
pub proof fn law_format_is_a_written_path(w: World, c: ContextView, a: PathView, front: Seq<char>, rest: Seq<char>)
    requires
        !front.contains('%'),
    ensures
        ({
            let whole = resolved(w, PathView::Format { fmt: front + seq!['%', 's'] + rest, args: seq![a] }, c).paths;
            let paths = resolved(w, a, c).paths;
            &&& paths.len() == 0 ==> whole.len() == 0
            &&& paths.len() > 0 ==> whole == resolved(w, PathView::Literal(front + paths[0] + rest), c).paths
        }),
{
    let fmt = front + seq!['%', 's'] + rest;
    let none = Seq::<PathView>::empty();
    let paths = resolved(w, a, c).paths;
    assert(seq![a].drop_last() =~= none);
    assert(first_paths(w, none, c).0 == Some(Seq::<Seq<char>>::empty()));
    if paths.len() > 0 {
        assert(Seq::<Seq<char>>::empty().push(paths[0]) =~= seq![paths[0]]);
        assert(first_paths(w, seq![a], c).0 == Some(seq![paths[0]]));
        assert(seq![paths[0]].drop_last() =~= Seq::<Seq<char>>::empty());
        assert(filled(fmt, Seq::empty()) == fmt);
        law_first_verb_is_filled(front, rest, paths[0]);
        assert(filled(fmt, seq![paths[0]]) == front + paths[0] + rest);
    } else {
        assert(first_paths(w, seq![a], c).0 is None);
    }
}

/// An expression in a text that is put together stands for the string that it comes to, and for nothing else.
pub proof fn law_expression_in_text(w: World, c: ContextView, e: ExprView, text: Seq<char>, t: Seq<char>)
    ensures
        ({
            let whole = resolved(w, PathView::Interpolation(seq![PathView::HclExpr(Box::new(e)), PathView::Literal(text)]), c).paths;
            let r = lazily(w, e, scope_of(c), Seq::empty()).result;
            &&& r == Ok::<ValueView, Seq<char>>(ValueView::String(t)) ==> whole == seq![normalized(t + text)]
            &&& r is Err || !(r->Ok_0 is String) ==> whole.len() == 0
        }),
{
    let x = PathView::HclExpr(Box::new(e));
    let lit = PathView::Literal(text);
    let none = Seq::<PathView>::empty();
    let empty = Seq::<char>::empty();
    let both = seq![x, lit];
    assert(spliced(w, none, c).0 == Some(empty));
    assert(seq![x].drop_last() =~= none);
    assert(both.drop_last() =~= seq![x]);
    assert(both.last() == lit);
    let r = lazily(w, e, scope_of(c), Seq::empty()).result;
    if r == Ok::<ValueView, Seq<char>>(ValueView::String(t)) {
        assert(empty + t =~= t);
        assert(spliced(w, seq![x], c).0 == Some(t));
        assert(spliced(w, both, c).0 == Some(t + text));
    } else if r is Err || !(r->Ok_0 is String) {
        assert(spliced(w, seq![x], c).0 is None);
        assert(spliced(w, both, c).0 is None);
    }
}

/// Two arguments are put in for the first and the second `%s`.
pub proof fn law_verbs_are_filled_in_turn(a: Seq<char>, b: Seq<char>, d: Seq<char>, x: Seq<char>, y: Seq<char>)
    requires
        !a.contains('%'),
        !b.contains('%'),
        !x.contains('%'),
    ensures
        filled(a + seq!['%', 's'] + b + seq!['%', 's'] + d, seq![x, y]) == a + x + b + y + d,
{
    let fmt = a + seq!['%', 's'] + b + seq!['%', 's'] + d;
    let rest = b + seq!['%', 's'] + d;
    assert(fmt =~= a + seq!['%', 's'] + rest);
    law_first_verb_is_filled(a, rest, x);
    let two = seq![x, y];
    let one = seq![x];
    assert(two.drop_last() =~= one);
    assert(one.drop_last() =~= Seq::<Seq<char>>::empty());
    assert(filled(fmt, Seq::empty()) == fmt);
    assert(filled(fmt, one) == a + x + rest);
    let front = a + x + b;
    assert(a + x + rest =~= front + seq!['%', 's'] + d);
    assert(!front.contains('%')) by {
        if front.contains('%') {
            let i = choose|i: int| 0 <= i < front.len() && front[i] == '%';
            if i < a.len() {
                assert(a[i] == '%');
            } else if i < a.len() + x.len() {
                assert(x[i - a.len()] == '%');
            } else {
                assert(b[i - a.len() - x.len()] == '%');
            }
        }
    }
    law_first_verb_is_filled(front, d, y);
    assert(filled(fmt, two) == front + y + d);
}

/// What is looked for on the way up is asked for from the inside out, and no further than where it stands.
pub proof fn law_search_asks_no_further(w: World, dir: Seq<char>, name: Seq<char>, q: QueryView) -> (n: nat)
    requires
        up_asks(w, dir, name, q),
    ensures
        above(dir, n) is Some,
        q == QueryView::Present(joined(above(dir, n)->0, name)),
        forall|m: nat| m < n ==> !#[trigger] stands_above(w, dir, name, m),
    decreases path_parts(dir).len(),
{
    assert(above(dir, 0) == Some(dir));
    if q == QueryView::Present(joined(dir, name)) {
        0
    } else {
        assert(!stands_above(w, dir, name, 0));
        let p = parent_of(dir)->0;
        let k = law_search_asks_no_further(w, p, name, q);
        lemma_above_again(dir, k);
        assert forall|m: nat| m < k + 1 implies !#[trigger] stands_above(w, dir, name, m) by {
            if m > 0 {
                lemma_above_again(dir, (m - 1) as nat);
                assert(!stands_above(w, p, name, (m - 1) as nat));
            }
        }
        k + 1
    }
}

// ------------------------------------------------------------------------ events

/// The calls of file functions that an expression makes are told, each with the stack file that it stands in, and so is an
/// expression that comes to no string.
pub proof fn law_calls_in_paths_are_told(w: World, c: ContextView, e: ExprView, i: int)
    requires
        c.stack_file is Some,
    ensures
        ({
            let a = lazily(w, e, scope_of(c), Seq::empty());
            let told = resolved(w, PathView::HclExpr(Box::new(e)), c).events;
            let text = a.result is Ok && a.result->Ok_0 is String;
            &&& 0 <= i < a.file_calls.len() ==> told[i] == (EventView::FileCall {
                function: a.file_calls[i],
                stack_file: c.stack_file->0,
            })
            &&& text ==> told.len() == a.file_calls.len()
            &&& !text ==> told.len() == a.file_calls.len() + 1 && told.last() == EventView::SourcePathFailure
        }),
{
}

} // verus!
