//! Finds terragrunt.hcl and terragrunt.stack.hcl files among the paths of a directory tree.

use crate::path::{components, file_name, parent, PathPart};
#[allow(unused_imports)]
use crate::path::{last_name, parent_of, part_views, path_parts, PartView};
use crate::text::same;
#[allow(unused_imports)]
use crate::text::texts;
use vstd::prelude::*;

verus! {

/// The directories that are skipped. `.terragrunt-stack` is not one of them, so that generated
/// units are found where they are there.
pub open spec fn is_ignored_name(name: Seq<char>) -> bool {
    name == ".terragrunt-cache"@ || name == ".terraform"@ || name == ".git"@ || name == "node_modules"@ || name == ".venv"@
        || name == "venv"@ || name == "__pycache__"@
}

/// Whether what has the given name is skipped.
pub fn is_ignored(name: &str) -> (res: bool)
    ensures
        res == is_ignored_name(name@),
{
    same(name, ".terragrunt-cache") || same(name, ".terraform") || same(name, ".git") || same(name, "node_modules") || same(
        name,
        ".venv",
    ) || same(name, "venv") || same(name, "__pycache__")
}

/// The path is skipped when the tree under `root` is walked: `root` itself, or something below it
/// on the way to the path, has a name that is ignored.
pub open spec fn is_skipped(root: Seq<char>, path: Seq<char>) -> bool {
    exists|i: int|
        path_parts(root).len() - 1 <= i < path_parts(path).len() && 0 <= i && is_ignored_part(#[trigger] path_parts(path)[i])
}

/// A part that is a name that is ignored.
pub open spec fn is_ignored_part(p: PartView) -> bool {
    p is Normal && is_ignored_name(p->Normal_0)
}

fn skips(root: &str, path: &str) -> (res: bool)
    ensures
        res == is_skipped(root@, path@),
{
    let above = components(root);
    let parts = components(path);
    let ghost views = path_parts(path@);
    assert(path_parts(root@).len() == above@.len());
    let mut i: usize = if above.len() > 0 {
        above.len() - 1
    } else {
        0
    };
    let start: usize = i;
    while i < parts.len()
        invariant
            start <= i,
            i <= parts@.len() || i == start,
            views == part_views(parts@),
            views == path_parts(path@),
            start == (if path_parts(root@).len() > 0 {
                path_parts(root@).len() - 1
            } else {
                0
            }),
            forall|j: int| start <= j < i && j < views.len() ==> !is_ignored_part(#[trigger] views[j]),
        decreases parts@.len() - i,
    {
        assert(views[i as int] == parts@[i as int]@);
        match &parts[i] {
            PathPart::Normal(t) => {
                if is_ignored(t.as_str()) {
                    assert(is_ignored_part(path_parts(path@)[i as int]));
                    return true;
                }
            },
            _ => {},
        }
        i += 1;
    }
    false
}

/// Files discovered by a single tree walk.
#[derive(Debug, PartialEq, Eq)]
pub struct DiscoveredFiles {
    /// Directories containing a `terragrunt.hcl` file
    pub units: Vec<String>,
    /// Paths to `terragrunt.stack.hcl` files
    pub stack_files: Vec<String>,
}

/// The directories with a `terragrunt.hcl` file among the paths, in order.
pub open spec fn units_among(root: Seq<char>, paths: Seq<Seq<char>>) -> Seq<Seq<char>>
    decreases paths.len(),
{
    if paths.len() == 0 {
        Seq::empty()
    } else {
        let before = units_among(root, paths.drop_last());
        let path = paths.last();
        if last_name(path) == Some("terragrunt.hcl"@) && !is_skipped(root, path) && parent_of(path) is Some {
            before.push(parent_of(path)->0)
        } else {
            before
        }
    }
}

/// The `terragrunt.stack.hcl` files among the paths, in order.
pub open spec fn stack_files_among(root: Seq<char>, paths: Seq<Seq<char>>) -> Seq<Seq<char>>
    decreases paths.len(),
{
    if paths.len() == 0 {
        Seq::empty()
    } else {
        let before = stack_files_among(root, paths.drop_last());
        let path = paths.last();
        if last_name(path) == Some("terragrunt.stack.hcl"@) && !is_skipped(root, path) {
            before.push(path)
        } else {
            before
        }
    }
}

/// Discovers all `terragrunt.hcl` and `terragrunt.stack.hcl` files among the paths that a walk of
/// the tree under `root` comes by.
pub fn discover_files(root: &str, paths: &Vec<String>) -> (res: DiscoveredFiles)
    ensures
        texts(res.units@) == units_among(root@, texts(paths@)),
        texts(res.stack_files@) == stack_files_among(root@, texts(paths@)),
{
    let ghost all = texts(paths@);
    let mut units: Vec<String> = Vec::new();
    let mut stack_files: Vec<String> = Vec::new();
    let mut i: usize = 0;
    assert(all.take(0) =~= Seq::empty());
    assert(texts(units@) =~= Seq::empty());
    assert(texts(stack_files@) =~= Seq::empty());
    while i < paths.len()
        invariant
            i <= paths@.len(),
            all == texts(paths@),
            texts(units@) == units_among(root@, all.take(i as int)),
            texts(stack_files@) == stack_files_among(root@, all.take(i as int)),
        decreases paths@.len() - i,
    {
        let ghost u = texts(units@);
        let ghost s = texts(stack_files@);
        proof {
            assert(all.take(i + 1).drop_last() =~= all.take(i as int));
            assert(all.take(i + 1).last() == paths@[i as int]@);
            reveal_strlit("terragrunt.hcl");
            reveal_strlit("terragrunt.stack.hcl");
            assert("terragrunt.hcl"@.len() != "terragrunt.stack.hcl"@.len());
        }
        let path = paths[i].as_str();
        if !skips(root, path) {
            match file_name(path) {
                Some(name) => {
                    if same(name.as_str(), "terragrunt.hcl") {
                        match parent(path) {
                            Some(dir) => {
                                let ghost d = dir@;
                                units.push(dir);
                                assert(texts(units@) =~= u.push(d));
                            },
                            None => {},
                        }
                    } else if same(name.as_str(), "terragrunt.stack.hcl") {
                        stack_files.push(paths[i].clone());
                        assert(texts(stack_files@) =~= s.push(path@));
                    }
                },
                None => {},
            }
        }
        i += 1;
    }
    assert(all.take(i as int) =~= all);
    DiscoveredFiles { units, stack_files }
}

/// Discovers all directories with a `terragrunt.hcl` file.
pub fn discover_projects(root: &str, paths: &Vec<String>) -> (res: Vec<String>)
    ensures
        texts(res@) == units_among(root@, texts(paths@)),
{
    discover_files(root, paths).units
}

// ------------------------------------------------------------------------- laws

/// A path is one of a `terragrunt.hcl` file that the walk does not skip.
pub open spec fn leads_to_unit(root: Seq<char>, path: Seq<char>) -> bool {
    last_name(path) == Some("terragrunt.hcl"@) && !is_skipped(root, path)
}

/// A directory is discovered exactly where the walk came by a `terragrunt.hcl` file in it that is
/// not inside of a directory that is skipped.
pub proof fn law_discovered_units(root: Seq<char>, paths: Seq<Seq<char>>, dir: Seq<char>)
    ensures
        units_among(root, paths).contains(dir) <==> exists|i: int|
            0 <= i < paths.len() && leads_to_unit(root, #[trigger] paths[i]) && parent_of(paths[i]) == Some(dir),
    decreases paths.len(),
{
    if paths.len() > 0 {
        let rest = paths.drop_last();
        let before = units_among(root, rest);
        let now = units_among(root, paths);
        law_discovered_units(root, rest, dir);
        if now.contains(dir) {
            let k = choose|k: int| 0 <= k < now.len() && now[k] == dir;
            if k < before.len() {
                assert(before[k] == dir);
                let m = choose|m: int|
                    0 <= m < rest.len() && leads_to_unit(root, #[trigger] rest[m]) && parent_of(rest[m]) == Some(dir);
                assert(paths[m] == rest[m]);
            } else {
                assert(leads_to_unit(root, paths[paths.len() - 1]));
            }
        }
        if exists|i: int|
            0 <= i < paths.len() && leads_to_unit(root, #[trigger] paths[i]) && parent_of(paths[i]) == Some(dir) {
            let k = choose|k: int|
                0 <= k < paths.len() && leads_to_unit(root, #[trigger] paths[k]) && parent_of(paths[k]) == Some(dir);
            if k < rest.len() {
                assert(rest[k] == paths[k]);
                let m = choose|m: int| 0 <= m < before.len() && before[m] == dir;
                assert(now[m] == dir);
            } else {
                assert(now[before.len() as int] == dir);
            }
        }
    }
}

/// A stack file is discovered exactly where the walk came by it, and it is not inside of a directory
/// that is skipped.
pub proof fn law_discovered_stack_files(root: Seq<char>, paths: Seq<Seq<char>>, t: Seq<char>)
    ensures
        stack_files_among(root, paths).contains(t) <==> paths.contains(t) && last_name(t) == Some(
            "terragrunt.stack.hcl"@,
        ) && !is_skipped(root, t),
    decreases paths.len(),
{
    if paths.len() > 0 {
        let rest = paths.drop_last();
        let before = stack_files_among(root, rest);
        let now = stack_files_among(root, paths);
        law_discovered_stack_files(root, rest, t);
        if now.contains(t) {
            let k = choose|k: int| 0 <= k < now.len() && now[k] == t;
            if k < before.len() {
                assert(before[k] == t);
                let m = choose|m: int| 0 <= m < rest.len() && rest[m] == t;
                assert(paths[m] == t);
            } else {
                assert(paths[paths.len() - 1] == t);
            }
        }
        if paths.contains(t) && last_name(t) == Some("terragrunt.stack.hcl"@) && !is_skipped(root, t) {
            let k = choose|k: int| 0 <= k < paths.len() && paths[k] == t;
            if k < rest.len() {
                assert(rest[k] == t);
                let m = choose|m: int| 0 <= m < before.len() && before[m] == t;
                assert(now[m] == t);
            } else {
                assert(now[before.len() as int] == t);
            }
        }
    }
}

/// What lies in a directory of one of these names, at any depth below the root, is skipped; what lies in none, and not in a
/// root of such a name, is not.
pub proof fn law_skipped_directories(root: Seq<char>, path: Seq<char>, i: int, name: Seq<char>)
    requires
        path_parts(root).len() <= i < path_parts(path).len(),
    ensures
        path_parts(path)[i] == PartView::Normal(name) && (name == ".terragrunt-cache"@ || name == ".terraform"@ || name
            == ".git"@ || name == "node_modules"@ || name == ".venv"@ || name == "venv"@ || name == "__pycache__"@)
            ==> is_skipped(root, path),
        (forall|k: int|
            path_parts(root).len() - 1 <= k < path_parts(path).len() && 0 <= k ==> match #[trigger] path_parts(path)[k] {
                PartView::Normal(t) => t != ".terragrunt-cache"@ && t != ".terraform"@ && t != ".git"@ && t != "node_modules"@
                    && t != ".venv"@ && t != "venv"@ && t != "__pycache__"@,
                _ => true,
            }) ==> !is_skipped(root, path),
{
    if path_parts(path)[i] == PartView::Normal(name) && is_ignored_name(name) {
        assert(is_ignored_part(path_parts(path)[i]));
    }
}

/// A unit is a directory with a `terragrunt.hcl` that is not skipped.
pub proof fn law_units_have_configurations(root: Seq<char>, paths: Seq<Seq<char>>, i: int)
    requires
        0 <= i < paths.len(),
        parent_of(paths[i]) is Some,
    ensures
        last_name(paths[i]) == Some("terragrunt.hcl"@) && !is_skipped(root, paths[i]) ==> units_among(root, paths).contains(
            parent_of(paths[i])->0,
        ),
        units_among(root, paths).len() <= paths.len(),
{
    law_discovered_units(root, paths, parent_of(paths[i])->0);
    if last_name(paths[i]) == Some("terragrunt.hcl"@) && !is_skipped(root, paths[i]) {
        assert(leads_to_unit(root, paths[i]));
    }
    lemma_no_more_units(root, paths);
}

proof fn lemma_no_more_units(root: Seq<char>, paths: Seq<Seq<char>>)
    ensures
        units_among(root, paths).len() <= paths.len(),
    decreases paths.len(),
{
    if paths.len() > 0 {
        lemma_no_more_units(root, paths.drop_last());
    }
}

} // verus!
