//! Change detection: compares a unit's watch files and directory against a git diff.

use crate::names::NameSet;
#[allow(unused_imports)]
use crate::names::with_name;
use crate::output::looks_like_directory;
#[allow(unused_imports)]
use crate::output::is_directory_like;
use crate::path::{join, same_path, starts_with_path};
#[allow(unused_imports)]
use crate::path::{has_root, joined, last_name, lies_under, path_parts, same_parts};
use crate::project::Project;
#[allow(unused_imports)]
use crate::project::{project_views, ProjectView};
use crate::text::{contains_char, lines, trim_end};
#[allow(unused_imports)]
use crate::text::{full_lines, split_on, texts, trimmed_end};
use vstd::prelude::*;

verus! {

// ------------------------------------------------------------------ asking git

/// The arguments that make git list the paths that changed between the point where `HEAD` left
/// `base_ref` and `HEAD`: `diff --name-only`, the two ends joined by three dots, and a `--` behind
/// which no paths follow, so that the ends are not taken for paths.
pub fn diff_args(base_ref: &str) -> (res: Vec<String>)
    ensures
        texts(res@) == seq!["diff"@, "--name-only"@, base_ref@ + "...HEAD"@, "--"@],
{
    let mut out: Vec<String> = Vec::new();
    out.push("diff".to_owned());
    out.push("--name-only".to_owned());
    out.push(crate::text::concat(base_ref, "...HEAD"));
    out.push("--".to_owned());
    assert(texts(out@) =~= seq!["diff"@, "--name-only"@, base_ref@ + "...HEAD"@, "--"@]);
    out
}

/// The root of the working tree out of what git printed; nothing where it printed nothing.
pub fn parse_toplevel(printed: &str) -> (res: Option<String>)
    ensures
        match res {
            Some(t) => t@ == trimmed_end(printed@) && t@.len() > 0,
            None => trimmed_end(printed@).len() == 0,
        },
{
    let t = trim_end(printed);
    if crate::text::to_chars(t.as_str()).len() == 0 {
        None
    } else {
        Some(t)
    }
}

/// The changed paths out of the diff that git printed. The lines are relative to the root of the
/// working tree.
pub fn changed_paths(toplevel: &str, printed: &str) -> (res: Vec<String>)
    ensures
        texts(res@) == full_lines(split_on(printed@, '\n')).map_values(|l: Seq<char>| joined(toplevel@, l)),
{
    let all = lines(printed);
    let ghost names = texts(all@);
    let mut out: Vec<String> = Vec::new();
    let mut i: usize = 0;
    assert(texts(out@) =~= names.take(0).map_values(|l: Seq<char>| joined(toplevel@, l)));
    while i < all.len()
        invariant
            i <= all@.len(),
            names == texts(all@),
            texts(out@) == names.take(i as int).map_values(|l: Seq<char>| joined(toplevel@, l)),
        decreases all@.len() - i,
    {
        let ghost before = out@;
        let path = join(toplevel, all[i].as_str());
        out.push(path);
        proof {
            assert(texts(out@) =~= texts(before).push(path@));
            assert(names.take(i + 1) =~= names.take(i as int).push(names[i as int]));
            assert(names.take(i + 1).map_values(|l: Seq<char>| joined(toplevel@, l)) =~= names.take(
                i as int,
            ).map_values(|l: Seq<char>| joined(toplevel@, l)).push(path@));
        }
        i += 1;
    }
    assert(names.take(i as int) =~= names);
    out
}

// --------------------------------------------------------------- watch entries

/// Whether the text matches the pattern, by the rules of `glob`; nothing where the pattern is
/// not one.
pub uninterp spec fn glob_verdict(pattern: Seq<char>, text: Seq<char>) -> Option<bool>;

/// The message of `glob` where it rejects a pattern.
pub uninterp spec fn pattern_error(pattern: Seq<char>) -> Option<Seq<char>>;

/// Calls `glob::Pattern::new`: nothing where the pattern is accepted, and else the message of the
/// error. Which patterns are rejected, and what the message says, is a function of the pattern.
#[verifier::external_body]
pub(crate) fn check_pattern(pattern: &str) -> (res: Option<String>)
    ensures
        crate::text::opt_text(res) == pattern_error(pattern@),
{
    match glob::Pattern::new(pattern) {
        Ok(_) => None,
        Err(e) => Some(e.to_string()),
    }
}

/// Calls `glob::Pattern::matches` on a pattern of `glob::Pattern::new`: whether the whole text
/// matches the pattern, or nothing where the pattern is rejected. The verdict is a function of the
/// two texts.
#[verifier::external_body]
pub(crate) fn glob_match(pattern: &str, text: &str) -> (res: Option<bool>)
    ensures
        res == glob_verdict(pattern@, text@),
        res is None <==> pattern_error(pattern@) is Some,
{
    match glob::Pattern::new(pattern) {
        Ok(p) => Some(p.matches(text)),
        Err(_) => None,
    }
}

/// The entry holds a character that `glob` gives a meaning.
pub open spec fn is_pattern(entry: Seq<char>) -> bool {
    entry.contains('*') || entry.contains('?') || entry.contains('[')
}

/// A path that is watched by its name: a directory stands for all that lies under it, a file
/// for itself.
pub open spec fn watched_by_name(entry: Seq<char>, path: Seq<char>) -> bool {
    if is_directory_like(entry) {
        lies_under(path, entry)
    } else {
        same_parts(path, entry)
    }
}

/// What a watch entry says of a changed path, given the verdict of `glob` on the two: a pattern
/// that is rejected is taken for a path.
pub open spec fn entry_hit(entry: Seq<char>, path: Seq<char>, verdict: Option<bool>) -> bool {
    if is_pattern(entry) && verdict is Some {
        verdict->0
    } else {
        watched_by_name(entry, path)
    }
}

/// What a watch entry says of a changed path, given the verdict of `glob` on the two.
pub fn entry_decides(entry: &str, path: &str, verdict: Option<bool>) -> (res: bool)
    ensures
        res == entry_hit(entry@, path@, verdict),
{
    if contains_char(entry, '*') || contains_char(entry, '?') || contains_char(entry, '[') {
        match verdict {
            Some(v) => {
                return v;
            },
            None => {},
        }
    }
    if looks_like_directory(entry) {
        starts_with_path(path, entry)
    } else {
        same_path(path, entry)
    }
}

/// The changed path touches the unit: it lies in the unit's directory, or a watch entry hits it.
pub open spec fn touches_unit(unit: ProjectView, path: Seq<char>) -> bool {
    lies_under(path, unit.dir) || exists|k: int|
        0 <= k < unit.watch_files.len() && entry_hit(
            #[trigger] unit.watch_files[k],
            path,
            glob_verdict(unit.watch_files[k], path),
        )
}

/// Some changed path touches the unit.
pub open spec fn is_touched(unit: ProjectView, changed: Seq<Seq<char>>) -> bool {
    exists|i: int| 0 <= i < changed.len() && touches_unit(unit, #[trigger] changed[i])
}

fn path_touches(unit: &Project, path: &str) -> (res: bool)
    ensures
        res == touches_unit(unit@, path@),
{
    if starts_with_path(path, unit.dir.as_str()) {
        return true;
    }
    let ghost view = unit@;
    let mut k: usize = 0;
    while k < unit.watch_files.len()
        invariant
            k <= unit.watch_files@.len(),
            view == unit@,
            forall|j: int|
                0 <= j < k ==> !entry_hit(
                    #[trigger] view.watch_files[j],
                    path@,
                    glob_verdict(view.watch_files[j], path@),
                ),
        decreases unit.watch_files@.len() - k,
    {
        let entry = unit.watch_files[k].as_str();
        assert(view.watch_files[k as int] == entry@);
        let verdict = glob_match(entry, path);
        if entry_decides(entry, path, verdict) {
            return true;
        }
        k += 1;
    }
    false
}

/// True if any changed path is inside `unit.dir`, matches a watch entry, or lives under a
/// directory-style watch entry (terraform module source).
pub fn unit_is_changed(unit: &Project, changed: &[String]) -> (res: bool)
    ensures
        res == is_touched(unit@, texts(changed@)),
{
    let ghost all = texts(changed@);
    let mut i: usize = 0;
    while i < changed.len()
        invariant
            i <= changed@.len(),
            all == texts(changed@),
            forall|j: int| 0 <= j < i ==> !touches_unit(unit@, #[trigger] all[j]),
        decreases changed@.len() - i,
    {
        assert(all[i as int] == changed@[i as int]@);
        if path_touches(unit, changed[i].as_str()) {
            return true;
        }
        i += 1;
    }
    false
}

// -------------------------------------------------------------------- cascades

/// A unit in `dir` is touched by a changed path.
pub open spec fn is_seed(units: Seq<ProjectView>, changed: Seq<Seq<char>>, dir: Seq<char>) -> bool {
    exists|i: int| 0 <= i < units.len() && (#[trigger] units[i]).dir == dir && is_touched(units[i], changed)
}

/// A unit in `dir` depends on `dep`.
pub open spec fn depends_on(units: Seq<ProjectView>, dir: Seq<char>, dep: Seq<char>) -> bool {
    exists|i: int|
        0 <= i < units.len() && (#[trigger] units[i]).dir == dir && units[i].project_dependencies.contains(dep)
}

/// A chain of directories: in each, a unit depends on the one before.
pub open spec fn is_chain(units: Seq<ProjectView>, w: Seq<Seq<char>>) -> bool {
    w.len() > 0 && forall|i: int| 1 <= i < w.len() ==> #[trigger] chained(units, w, i)
}

pub open spec fn chained(units: Seq<ProjectView>, w: Seq<Seq<char>>, i: int) -> bool {
    depends_on(units, w[i], w[i - 1])
}

/// The directory `dir` is affected: a chain of dependencies leads from it to a touched unit.
pub open spec fn is_affected(units: Seq<ProjectView>, changed: Seq<Seq<char>>, dir: Seq<char>) -> bool {
    exists|w: Seq<Seq<char>>| #[trigger] is_chain(units, w) && is_seed(units, changed, w[0]) && w.last() == dir
}

proof fn lemma_seed_affected(units: Seq<ProjectView>, changed: Seq<Seq<char>>, dir: Seq<char>)
    requires
        is_seed(units, changed, dir),
    ensures
        is_affected(units, changed, dir),
{
    let w = seq![dir];
    assert(is_chain(units, w) && is_seed(units, changed, w[0]) && w.last() == dir);
}

proof fn lemma_affected_step(units: Seq<ProjectView>, changed: Seq<Seq<char>>, dir: Seq<char>, dep: Seq<char>)
    requires
        is_affected(units, changed, dep),
        depends_on(units, dir, dep),
    ensures
        is_affected(units, changed, dir),
{
    let w = choose|w: Seq<Seq<char>>| #[trigger]
        is_chain(units, w) && is_seed(units, changed, w[0]) && w.last() == dep;
    let v = w.push(dir);
    assert forall|i: int| 1 <= i < v.len() implies #[trigger] chained(units, v, i) by {
        if i < w.len() {
            assert(chained(units, w, i));
        }
    }
    assert(is_chain(units, v) && is_seed(units, changed, v[0]) && v.last() == dir);
}

/// A set that holds the seeds and is closed under dependents holds all that is affected.
proof fn lemma_affected_in(
    units: Seq<ProjectView>,
    changed: Seq<Seq<char>>,
    set: Seq<Seq<char>>,
    w: Seq<Seq<char>>,
    k: int,
)
    requires
        is_chain(units, w),
        is_seed(units, changed, w[0]),
        forall|d: Seq<char>| is_seed(units, changed, d) ==> #[trigger] set.contains(d),
        forall|d: Seq<char>, e: Seq<char>| set.contains(e) && #[trigger] depends_on(units, d, e) ==> set.contains(d),
        0 <= k < w.len(),
    ensures
        set.contains(w[k]),
    decreases k,
{
    if k > 0 {
        lemma_affected_in(units, changed, set, w, k - 1);
        assert(chained(units, w, k));
    }
}

fn seed_units(projects: &[Project], changed: &[String]) -> (res: NameSet)
    ensures
        res@.no_duplicates(),
        forall|d: Seq<char>| #[trigger]
            res@.contains(d) <==> is_seed(project_views(projects@), texts(changed@), d),
{
    let ghost units = project_views(projects@);
    let ghost paths = texts(changed@);
    let mut out = NameSet::new();
    let none: usize = out.len();
    let mut i: usize = 0;
    while i < projects.len()
        invariant
            i <= projects@.len(),
            units == project_views(projects@),
            paths == texts(changed@),
            out@.no_duplicates(),
            forall|d: Seq<char>| #[trigger] out@.contains(d) <==> is_seed(units.take(i as int), paths, d),
        decreases projects@.len() - i,
    {
        let ghost before = out@;
        let p = &projects[i];
        assert(units[i as int] == p@);
        let hit = unit_is_changed(p, changed);
        if hit {
            let (more, at) = out.insert(p.dir.as_str());
            out = more;
        }
        proof {
            let small = units.take(i as int);
            let large = units.take(i + 1);
            assert forall|d: Seq<char>| #[trigger] out@.contains(d) <==> is_seed(large, paths, d) by {
                if is_seed(small, paths, d) {
                    let k = choose|k: int|
                        0 <= k < small.len() && (#[trigger] small[k]).dir == d && is_touched(small[k], paths);
                    assert(large[k] == small[k]);
                }
                if hit && d == p@.dir {
                    assert(large[i as int].dir == d);
                }
                if is_seed(large, paths, d) {
                    let k = choose|k: int|
                        0 <= k < large.len() && (#[trigger] large[k]).dir == d && is_touched(large[k], paths);
                    if k < i {
                        assert(small[k] == large[k]);
                    }
                }
                lemma_insert_contains(before, p@.dir, d);
            }
        }
        i += 1;
    }
    assert(units.take(i as int) =~= units);
    out
}

proof fn lemma_insert_contains(set: Seq<Seq<char>>, name: Seq<char>, d: Seq<char>)
    ensures
        with_name(set, name).contains(d) <==> set.contains(d) || d == name,
{
    assert(set.push(name)[set.len() as int] == name);
    if set.contains(d) {
        let i = choose|i: int| 0 <= i < set.len() && set[i] == d;
        assert(set.push(name)[i] == d);
    }
    if set.push(name).contains(d) && d != name {
        let i = choose|i: int| 0 <= i < set.push(name).len() && set.push(name)[i] == d;
        assert(set[i] == d);
    }
}

/// Whether one of `deps` is in the set.
fn any_in(set: &NameSet, deps: &Vec<String>) -> (res: Option<usize>)
    ensures
        match res {
            Some(k) => k < deps@.len() && set@.contains(deps@[k as int]@),
            None => forall|d: Seq<char>| #[trigger] texts(deps@).contains(d) ==> !set@.contains(d),
        },
{
    let mut k: usize = 0;
    while k < deps.len()
        invariant
            k <= deps@.len(),
            forall|j: int| 0 <= j < k ==> !set@.contains(#[trigger] texts(deps@)[j]),
        decreases deps@.len() - k,
    {
        if set.contains(deps[k].as_str()) {
            return Some(k);
        }
        assert(texts(deps@)[k as int] == deps@[k as int]@);
        k += 1;
    }
    None
}

/// The directories of some of the units are no more than there are units.
proof fn lemma_few_dirs(units: Seq<ProjectView>, set: Seq<Seq<char>>)
    requires
        set.no_duplicates(),
        forall|i: int| 0 <= i < set.len() ==> is_dir(units, #[trigger] set[i]),
    ensures
        set.len() <= units.len(),
{
    let dirs = units.map_values(|p: ProjectView| p.dir);
    if set.len() > units.len() {
        assert forall|i: int| 0 <= i < set.len() implies dirs.contains(#[trigger] set[i]) by {
            assert(is_dir(units, set[i]));
            let k = choose|k: int| 0 <= k < units.len() && (#[trigger] units[k]).dir == set[i];
            assert(dirs[k] == set[i]);
        }
        let (i, j) = crate::graph::lemma_pigeonhole(set, dirs);
    }
}

/// `d` is the directory of a unit.
pub open spec fn is_dir(units: Seq<ProjectView>, d: Seq<char>) -> bool {
    exists|k: int| 0 <= k < units.len() && (#[trigger] units[k]).dir == d
}

/// Computes the set of projects (by directory) that are changed.
///
/// A project is always in the set if its own watch files or directory overlap the changed paths
/// (see [`unit_is_changed`]). With `cascade`, a project is also in the set if one of its
/// dependencies is; this is repeated until nothing changes, so the result does not depend on the
/// order of the projects. Without it, only the directly changed projects come back.
///
/// Dependencies are absolute paths, like the directories that they are compared with.
pub fn compute_changed_units(projects: &[Project], changed: &[String], cascade: bool) -> (res: NameSet)
    requires
        forall|i: int, k: int|
            0 <= i < projects@.len() && 0 <= k < projects@[i].project_dependencies@.len() ==> has_root(
                (#[trigger] projects@[i].project_dependencies@[k])@,
            ),
    ensures
        res@.no_duplicates(),
        forall|d: Seq<char>| #[trigger]
            res@.contains(d) <==> if cascade {
                is_affected(project_views(projects@), texts(changed@), d)
            } else {
                is_seed(project_views(projects@), texts(changed@), d)
            },
{
    let ghost units = project_views(projects@);
    let ghost paths = texts(changed@);
    let mut out = seed_units(projects, changed);
    if !cascade {
        return out;
    }
    proof {
        assert forall|d: Seq<char>| out@.contains(d) implies is_affected(units, paths, d) by {
            lemma_seed_affected(units, paths, d);
        }
        assert forall|i: int| 0 <= i < out@.len() implies is_dir(units, #[trigger] out@[i]) by {
            assert(out@.contains(out@[i]));
            let k = choose|k: int|
                0 <= k < units.len() && (#[trigger] units[k]).dir == out@[i] && is_touched(units[k], paths);
            assert(units[k].dir == out@[i]);
        }
    }
    let mut added = true;
    while added
        invariant
            units == project_views(projects@),
            paths == texts(changed@),
            out@.no_duplicates(),
            forall|d: Seq<char>| is_seed(units, paths, d) ==> #[trigger] out@.contains(d),
            forall|d: Seq<char>| #[trigger] out@.contains(d) ==> is_affected(units, paths, d),
            forall|i: int| 0 <= i < out@.len() ==> is_dir(units, #[trigger] out@[i]),
            !added ==> forall|d: Seq<char>, e: Seq<char>|
                out@.contains(e) && #[trigger] depends_on(units, d, e) ==> out@.contains(d),
        decreases units.len() - out@.len() + (if added { 1int } else { 0 }),
    {
        let ghost start = out@;
        added = false;
        let mut i: usize = 0;
        while i < projects.len()
            invariant
                i <= projects@.len(),
                units == project_views(projects@),
                paths == texts(changed@),
                out@.no_duplicates(),
                forall|d: Seq<char>| is_seed(units, paths, d) ==> #[trigger] out@.contains(d),
                forall|d: Seq<char>| #[trigger] out@.contains(d) ==> is_affected(units, paths, d),
                forall|k: int| 0 <= k < out@.len() ==> is_dir(units, #[trigger] out@[k]),
                added ==> out@.len() > start.len(),
                !added ==> out@ == start,
                !added ==> forall|k: int|
                    0 <= k < i && !start.contains((#[trigger] units[k]).dir) ==> forall|e: Seq<char>| #[trigger]
                        units[k].project_dependencies.contains(e) ==> !start.contains(e),
            decreases projects@.len() - i,
        {
            let p = &projects[i];
            assert(units[i as int] == p@);
            if !out.contains(p.dir.as_str()) {
                match any_in(&out, &p.project_dependencies) {
                    Some(k) => {
                        let ghost before = out@;
                        let (more, at) = out.insert(p.dir.as_str());
                        out = more;
                        added = true;
                        proof {
                            let dep = p.project_dependencies@[k as int]@;
                            assert(units[i as int].project_dependencies[k as int] == dep);
                            assert(depends_on(units, p@.dir, dep));
                            lemma_affected_step(units, paths, p@.dir, dep);
                            assert forall|d: Seq<char>| #[trigger] out@.contains(d) implies is_affected(
                                units,
                                paths,
                                d,
                            ) by {
                                lemma_insert_contains(before, p@.dir, d);
                            }
                            assert forall|d: Seq<char>| is_seed(units, paths, d) implies #[trigger] out@.contains(d) by {
                                lemma_insert_contains(before, p@.dir, d);
                                assert(before.contains(d));
                            }
                            assert forall|q: int| 0 <= q < out@.len() implies is_dir(units, #[trigger] out@[q]) by {
                                if q < before.len() {
                                    assert(out@[q] == before[q]);
                                } else {
                                    assert(units[i as int].dir == out@[q]);
                                }
                            }
                        }
                    },
                    None => {},
                }
            }
            i += 1;
        }
        proof {
            lemma_few_dirs(units, out@);
            lemma_few_dirs(units, start);
            if !added {
                assert forall|d: Seq<char>, e: Seq<char>|
                    out@.contains(e) && #[trigger] depends_on(units, d, e) implies out@.contains(d) by {
                    let k = choose|k: int|
                        0 <= k < units.len() && (#[trigger] units[k]).dir == d
                            && units[k].project_dependencies.contains(e);
                }
            }
        }
    }
    proof {
        assert forall|d: Seq<char>| is_affected(units, paths, d) implies #[trigger] out@.contains(d) by {
            let w = choose|w: Seq<Seq<char>>| #[trigger]
                is_chain(units, w) && is_seed(units, paths, w[0]) && w.last() == d;
            lemma_affected_in(units, paths, out@, w, w.len() - 1);
        }
    }
    out
}

// ------------------------------------------------------------------------- laws

/// The directly changed units are among those that are affected.
pub proof fn law_seed_is_affected(units: Seq<ProjectView>, changed: Seq<Seq<char>>, dir: Seq<char>)
    requires
        is_seed(units, changed, dir),
    ensures
        is_affected(units, changed, dir),
{
    lemma_seed_affected(units, changed, dir);
}

/// What depends on an affected unit is affected.
pub proof fn law_dependents_are_affected(
    units: Seq<ProjectView>,
    changed: Seq<Seq<char>>,
    dir: Seq<char>,
    dep: Seq<char>,
)
    requires
        is_affected(units, changed, dep),
        depends_on(units, dir, dep),
    ensures
        is_affected(units, changed, dir),
{
    lemma_affected_step(units, changed, dir, dep);
}

/// The affected units do not depend on the order in which the projects come.
pub proof fn law_order_does_not_matter(
    units: Seq<ProjectView>,
    others: Seq<ProjectView>,
    changed: Seq<Seq<char>>,
    dir: Seq<char>,
)
    requires
        forall|p: ProjectView| units.contains(p) <==> others.contains(p),
    ensures
        is_affected(units, changed, dir) <==> is_affected(others, changed, dir),
{
    if is_affected(units, changed, dir) {
        lemma_affected_reordered(units, others, changed, dir);
    }
    if is_affected(others, changed, dir) {
        lemma_affected_reordered(others, units, changed, dir);
    }
}

proof fn lemma_affected_reordered(
    units: Seq<ProjectView>,
    others: Seq<ProjectView>,
    changed: Seq<Seq<char>>,
    dir: Seq<char>,
)
    requires
        forall|p: ProjectView| units.contains(p) ==> others.contains(p),
        is_affected(units, changed, dir),
    ensures
        is_affected(others, changed, dir),
{
    let w = choose|w: Seq<Seq<char>>| #[trigger]
        is_chain(units, w) && is_seed(units, changed, w[0]) && w.last() == dir;
    let s = choose|i: int| 0 <= i < units.len() && (#[trigger] units[i]).dir == w[0] && is_touched(units[i], changed);
    assert(units.contains(units[s]));
    let t = choose|t: int| 0 <= t < others.len() && others[t] == units[s];
    assert(others[t].dir == w[0] && is_touched(others[t], changed));
    assert forall|i: int| 1 <= i < w.len() implies #[trigger] chained(others, w, i) by {
        assert(chained(units, w, i));
        let k = choose|k: int|
            0 <= k < units.len() && (#[trigger] units[k]).dir == w[i] && units[k].project_dependencies.contains(
                w[i - 1],
            );
        assert(units.contains(units[k]));
        let q = choose|q: int| 0 <= q < others.len() && others[q] == units[k];
        assert(others[q].dir == w[i] && others[q].project_dependencies.contains(w[i - 1]));
    }
    assert(is_chain(others, w) && is_seed(others, changed, w[0]) && w.last() == dir);
}

/// A changed path that lies under the directory of a unit, however deep, changes the unit.
pub proof fn law_path_under_unit_changes_it(unit: ProjectView, changed: Seq<Seq<char>>, i: int)
    requires
        0 <= i < changed.len(),
        path_parts(unit.dir).len() <= path_parts(changed[i]).len(),
        path_parts(changed[i]).take(path_parts(unit.dir).len() as int) == path_parts(unit.dir),
    ensures
        is_touched(unit, changed),
{
    let n = path_parts(unit.dir).len() as int;
    assert(path_parts(changed[i]).subrange(0, n) =~= path_parts(changed[i]).take(n));
    assert(touches_unit(unit, changed[i]));
}

/// A changed path that a unit watches by its name changes the unit; so does one that lies, however
/// deep, under a path that the unit watches and whose name has no dot; and so does one that matches a
/// pattern that the unit watches. What is no pattern is taken for a path.
pub proof fn law_watched_path_changes_unit(unit: ProjectView, changed: Seq<Seq<char>>, i: int, k: int)
    requires
        0 <= i < changed.len(),
        0 <= k < unit.watch_files.len(),
    ensures
        ({
            let entry = unit.watch_files[k];
            let plain = !entry.contains('*') && !entry.contains('?') && !entry.contains('[');
            &&& plain && path_parts(entry) == path_parts(changed[i]) ==> is_touched(unit, changed)
            &&& plain && last_name(entry) is Some && !last_name(entry)->0.contains('.') && path_parts(entry).len()
                <= path_parts(changed[i]).len() && path_parts(changed[i]).take(path_parts(entry).len() as int)
                == path_parts(entry) ==> is_touched(unit, changed)
            &&& !plain && glob_verdict(entry, changed[i]) == Some(true) ==> is_touched(unit, changed)
            &&& glob_verdict(entry, changed[i]) is None && path_parts(entry) == path_parts(changed[i]) ==> is_touched(
                unit,
                changed,
            )
        }),
{
    let entry = unit.watch_files[k];
    let n = path_parts(entry).len() as int;
    let path = changed[i];
    if path_parts(entry) == path_parts(path) {
        assert(path_parts(path).subrange(0, n) =~= path_parts(entry));
    }
    if n <= path_parts(path).len() {
        assert(path_parts(path).subrange(0, n) =~= path_parts(path).take(n));
    }
    if entry_hit(entry, path, glob_verdict(entry, path)) {
        assert(touches_unit(unit, path));
    }
}

/// Nothing else changes a unit: where no changed path lies under its directory, none matches a pattern
/// that it watches, and none lies under or is another path that it watches, the unit is unchanged.
pub proof fn law_other_paths_leave_unit(unit: ProjectView, changed: Seq<Seq<char>>)
    requires
        forall|i: int| #![trigger changed[i]] 0 <= i < changed.len() ==> !path_parts(unit.dir).is_prefix_of(path_parts(changed[i])),
        forall|i: int, k: int|
            #![trigger changed[i], unit.watch_files[k]]
            0 <= i < changed.len() && 0 <= k < unit.watch_files.len() ==> glob_verdict(unit.watch_files[k], changed[i])
                != Some(true) && !path_parts(unit.watch_files[k]).is_prefix_of(path_parts(changed[i])),
    ensures
        !is_touched(unit, changed),
{
    if is_touched(unit, changed) {
        let i = choose|i: int| 0 <= i < changed.len() && touches_unit(unit, #[trigger] changed[i]);
        let k = choose|k: int|
            0 <= k < unit.watch_files.len() && entry_hit(
                #[trigger] unit.watch_files[k],
                changed[i],
                glob_verdict(unit.watch_files[k], changed[i]),
            );
        let parts = path_parts(changed[i]);
        assert(parts.subrange(0, parts.len() as int) =~= parts);
    }
}

/// A changed path that has the parts of a watched file as its first parts, and more, does not change a
/// unit by that entry: a watched file whose name has a dot stands for itself alone.
pub proof fn law_watched_file_is_itself(entry: Seq<char>, path: Seq<char>, verdict: Option<bool>)
    requires
        !entry.contains('*'),
        !entry.contains('?'),
        !entry.contains('['),
        last_name(entry) is Some,
        last_name(entry)->0.contains('.'),
    ensures
        entry_hit(entry, path, verdict) <==> path_parts(entry) == path_parts(path),
{
}

/// More changes never leave a unit unchanged that fewer have changed, and no change changes none.
pub proof fn law_more_changes_change_more(unit: ProjectView, changed: Seq<Seq<char>>, more: Seq<Seq<char>>)
    ensures
        is_touched(unit, changed + more) <==> is_touched(unit, changed) || is_touched(unit, more),
        !is_touched(unit, Seq::empty()),
{
    let all = changed + more;
    if is_touched(unit, changed) {
        let i = choose|i: int| 0 <= i < changed.len() && touches_unit(unit, #[trigger] changed[i]);
        assert(touches_unit(unit, all[i]));
    }
    if is_touched(unit, more) {
        let i = choose|i: int| 0 <= i < more.len() && touches_unit(unit, #[trigger] more[i]);
        assert(touches_unit(unit, all[i + changed.len()]));
    }
    if is_touched(unit, all) {
        let i = choose|i: int| 0 <= i < all.len() && touches_unit(unit, #[trigger] all[i]);
        if i < changed.len() {
            assert(touches_unit(unit, changed[i]));
        } else {
            assert(touches_unit(unit, more[i - changed.len()]));
        }
    }
}

/// Each line that git prints is a changed path, seen from the root of the working tree; a carriage return at its end, and
/// empty lines, are no part of it.
pub proof fn law_lines_are_paths(pieces: Seq<Seq<char>>, line: Seq<char>)
    requires
        line.len() > 0,
        line.last() != '\r',
    ensures
        full_lines(Seq::empty()).len() == 0,
        full_lines(pieces.push(line)) == full_lines(pieces).push(line),
        full_lines(pieces.push(line.push('\r'))) == full_lines(pieces).push(line),
        full_lines(pieces.push(Seq::empty())) == full_lines(pieces),
        full_lines(pieces.push(seq!['\r'])) == full_lines(pieces),
{
    let none = Seq::<char>::empty();
    assert(pieces.push(line).drop_last() =~= pieces);
    assert(pieces.push(line.push('\r')).drop_last() =~= pieces);
    assert(pieces.push(none).drop_last() =~= pieces);
    assert(pieces.push(seq!['\r']).drop_last() =~= pieces);
    assert(line.push('\r').drop_last() =~= line);
    assert(seq!['\r'].drop_last() =~= none);
}

/// A unit is affected exactly where a chain of dependencies leads from it to a unit that a change touches: those that
/// depend on an affected unit are affected, and an affected unit is touched itself or depends on an affected one.
pub proof fn law_affected_units(units: Seq<ProjectView>, changed: Seq<Seq<char>>, dir: Seq<char>)
    requires
        is_affected(units, changed, dir),
    ensures
        (exists|i: int| 0 <= i < units.len() && (#[trigger] units[i]).dir == dir && is_touched(units[i], changed)) || (exists|
            i: int,
            dep: Seq<char>,
        |
            0 <= i < units.len() && (#[trigger] units[i]).dir == dir && #[trigger] units[i].project_dependencies.contains(dep)
                && is_affected(units, changed, dep)),
{
    let w = choose|w: Seq<Seq<char>>| #[trigger] is_chain(units, w) && is_seed(units, changed, w[0]) && w.last() == dir;
    if w.len() == 1 {
        let i = choose|i: int| 0 <= i < units.len() && (#[trigger] units[i]).dir == dir && is_touched(units[i], changed);
        assert(units[i].dir == dir);
    } else {
        let n = w.len() - 1;
        assert(chained(units, w, n));
        let less = w.drop_last();
        assert forall|i: int| 1 <= i < less.len() implies #[trigger] chained(units, less, i) by {
            assert(chained(units, w, i));
        }
        assert(is_chain(units, less));
        assert(less.last() == w[n - 1]);
        assert(is_affected(units, changed, w[n - 1]));
        let i = choose|i: int|
            0 <= i < units.len() && (#[trigger] units[i]).dir == dir && units[i].project_dependencies.contains(w[n - 1]);
        assert(units[i].project_dependencies.contains(w[n - 1]));
    }
}

} // verus!
