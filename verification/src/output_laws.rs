//! What holds of every document that is put out.

#[allow(unused_imports)]
use crate::graph::leads_to_cycle;
#[allow(unused_imports)]
use crate::layers::{
    dependency_arcs, distinct_dirs, distinct_names, known_names, law_dependencies_run_first,
    law_layers_follow_dependencies, law_untold_leads_to_cycle, layer_above, layers_of, name_of_dir, settled_names, Layers,
};
#[allow(unused_imports)]
use crate::output::{
    dotted, include_patterns, is_atlantis_output, is_atlantis_project, is_digger_output, is_digger_project,
    is_directory_like, is_generic_output, is_generic_project, name_for, names_for, path_between, relative_paths,
    relative_to, text_or, watch_pattern, watch_patterns, when_modified, AtlantisOutput, DiggerOutput, GenericOutput,
    OutputConfig,
};
#[allow(unused_imports)]
use crate::path::{
    is_plain, last_name, lemma_parts_of_text, lemma_path_parts_proper, path_parts, path_text, proper, stripped, PartView,
};
#[allow(unused_imports)]
use crate::project::ProjectView;
#[allow(unused_imports)]
use crate::text::{begins_with, opt_text, texts, underscored};
use vstd::prelude::*;

verus! {

/// A path under the base directory is written from there: its parts are those behind the base. Any other path,
/// and every path without a base, is written as it is.
pub proof fn law_paths_are_written_from_the_base(path: Seq<char>, base: Seq<char>)
    requires
        is_plain(path),
    ensures
        relative_to(path, None) == path,
        path_parts(base).is_prefix_of(path_parts(path)) ==> path_parts(relative_to(path, Some(base))) == path_parts(
            path,
        ).skip(path_parts(base).len() as int),
        !path_parts(base).is_prefix_of(path_parts(path)) ==> relative_to(path, Some(base)) == path,
{
    let parts = path_parts(path);
    let n = path_parts(base).len() as int;
    lemma_path_parts_proper(path);
    if path_parts(base).is_prefix_of(parts) {
        let rest = parts.skip(n);
        assert(proper(rest)) by {
            assert forall|i: int| 0 <= i < rest.len() implies #[trigger] rest[i] == parts[i + n] by {}
        }
        lemma_parts_of_text(rest);
    }
}

/// A name is the path as it is written, with an underscore for each separator and nothing else changed.
pub proof fn law_names_are_paths(dir: Seq<char>, base: Option<Seq<char>>)
    ensures
        name_for(dir, base).len() == relative_to(dir, base).len(),
        forall|i: int|
            0 <= i < relative_to(dir, base).len() ==> #[trigger] name_for(dir, base)[i] == (if relative_to(
                dir,
                base,
            )[i] == '/' || relative_to(dir, base)[i] == '\\' {
                '_'
            } else {
                relative_to(dir, base)[i]
            }),
        !name_for(dir, base).contains('/'),
{
}

/// A watched path whose name has a dot is watched itself; one without stands for the terraform files under it.
pub proof fn law_watched_directories_become_patterns(path: Seq<char>)
    ensures
        last_name(path) is Some && last_name(path)->0.contains('.') ==> watch_pattern(path) == path,
        last_name(path) is Some && !last_name(path)->0.contains('.') ==> watch_pattern(path) == path + "/**/*.tf"@,
        last_name(path) is None ==> watch_pattern(path) == path + "/**/*.tf"@,
{
}

// ---------------------------------------------------------------------- documents

/// The plain document has an entry for each project, in their order, with its directory, its name, and each of its
/// dependencies and watch files, written from the base.
pub proof fn law_generic_document(projects: Seq<ProjectView>, config: OutputConfig, out: GenericOutput, i: int, k: int)
    requires
        is_generic_output(projects, config, out),
        0 <= i < projects.len(),
    ensures
        out.projects@.len() == projects.len(),
        ({
            let base = opt_text(config.base_dir);
            let p = projects[i];
            let g = out.projects@[i];
            &&& g.dir@ == relative_to(p.dir, base)
            &&& g.name@ == name_for(p.dir, base)
            &&& g.dependencies@.len() == p.project_dependencies.len()
            &&& g.watch_files@.len() == p.watch_files.len()
            &&& 0 <= k < p.project_dependencies.len() ==> g.dependencies@[k]@ == name_for(p.project_dependencies[k], base)
            &&& 0 <= k < p.watch_files.len() ==> g.watch_files@[k]@ == relative_to(p.watch_files[k], base)
        }),
{
    let base = opt_text(config.base_dir);
    let p = projects[i];
    let g = out.projects@[i];
    assert(is_generic_project(p, config, g));
    assert(texts(g.dependencies@).len() == g.dependencies@.len());
    assert(texts(g.watch_files@).len() == g.watch_files@.len());
    if 0 <= k < p.project_dependencies.len() {
        assert(texts(g.dependencies@)[k] == name_for(p.project_dependencies[k], base));
    }
    if 0 <= k < p.watch_files.len() {
        assert(texts(g.watch_files@)[k] == relative_to(p.watch_files[k], base));
    }
}

/// A dependency of one project on another is named as that other is named, so it leads to its entry.
pub proof fn law_dependencies_lead_to_entries(
    projects: Seq<ProjectView>,
    config: OutputConfig,
    generic: GenericOutput,
    digger: DiggerOutput,
    i: int,
    j: int,
)
    requires
        is_generic_output(projects, config, generic),
        is_digger_output(projects, config, digger),
        0 <= i < projects.len(),
        0 <= j < projects.len(),
        projects[i].project_dependencies.contains(projects[j].dir),
    ensures
        texts(generic.projects@[i].dependencies@).contains(generic.projects@[j].name@),
        texts(digger.projects@[i].depends_on@).contains(digger.projects@[j].name@),
{
    let base = opt_text(config.base_dir);
    let deps = projects[i].project_dependencies;
    let k = choose|k: int| 0 <= k < deps.len() && deps[k] == projects[j].dir;
    assert(is_generic_project(projects[i], config, generic.projects@[i]));
    assert(is_generic_project(projects[j], config, generic.projects@[j]));
    assert(is_digger_project(projects, projects[i], config, digger.projects@[i]));
    assert(is_digger_project(projects, projects[j], config, digger.projects@[j]));
    assert(names_for(deps, base)[k] == name_for(deps[k], base));
}

/// The Atlantis document has an entry for each project, in their order. It is planned when one of its own files
/// changes, unless these are left out, or one that it watches, as that is seen from the project's directory; the
/// workspace is called as the project and the workflow `terragrunt` where none is given.
pub proof fn law_atlantis_document(projects: Seq<ProjectView>, config: OutputConfig, out: AtlantisOutput, i: int, k: int)
    requires
        is_atlantis_output(projects, config, out),
        0 <= i < projects.len(),
    ensures
        out.version == 3,
        out.automerge == config.automerge,
        out.parallel_plan,
        out.parallel_apply == config.parallel_apply,
        out.projects@.len() == projects.len(),
        ({
            let base = opt_text(config.base_dir);
            let p = projects[i];
            let a = out.projects@[i];
            let when = a.autoplan.when_modified@;
            let own = if config.include_self_in_watch {
                2int
            } else {
                0
            };
            &&& a.dir@ == relative_to(p.dir, base)
            &&& a.name@ == name_for(p.dir, base)
            &&& config.workspace is Some ==> a.workspace@ == config.workspace->0@
            &&& config.workspace is None ==> a.workspace@ == a.name@
            &&& config.workflow is Some ==> a.workflow@ == config.workflow->0@
            &&& config.workflow is None ==> a.workflow@ == "terragrunt"@
            &&& opt_text(a.terraform_version) == opt_text(config.terraform_version)
            &&& a.autoplan.enabled == config.autoplan_enabled
            &&& when.len() == own + p.watch_files.len()
            &&& config.include_self_in_watch ==> when[0]@ == "**/*.hcl"@ && when[1]@ == "**/*.tf"@
            &&& 0 <= k < p.watch_files.len() ==> when[own + k]@ == watch_pattern(path_between(p.dir, p.watch_files[k]))
            &&& a.execution_order_group == layers_of(projects)[p.name]
        }),
{
    let p = projects[i];
    let a = out.projects@[i];
    assert(is_atlantis_project(projects, p, config, a));
    let when = a.autoplan.when_modified@;
    let all = when_modified(p, config.include_self_in_watch);
    assert(texts(when) == all);
    assert(when.len() == all.len());
    let own = if config.include_self_in_watch {
        2int
    } else {
        0
    };
    if config.include_self_in_watch {
        assert(all[0] == "**/*.hcl"@ && all[1] == "**/*.tf"@);
        assert(texts(when)[0] == when[0]@ && texts(when)[1] == when[1]@);
    }
    if 0 <= k < p.watch_files.len() {
        assert(all[own + k] == watch_patterns(p.dir, p.watch_files)[k]);
        assert(texts(when)[own + k] == when[own + k]@);
    }
}

/// The Digger document has an entry for each project, in their order. It covers the project's own directory, unless
/// that is left out, and each file that it watches, as that is seen from there; every pattern begins with a dot.
pub proof fn law_digger_document(projects: Seq<ProjectView>, config: OutputConfig, out: DiggerOutput, i: int, k: int)
    requires
        is_digger_output(projects, config, out),
        0 <= i < projects.len(),
    ensures
        out.projects@.len() == projects.len(),
        ({
            let base = opt_text(config.base_dir);
            let p = projects[i];
            let d = out.projects@[i];
            let patterns = d.include_patterns@;
            let own = if config.include_self_in_watch {
                1int
            } else {
                0
            };
            &&& d.dir@ == relative_to(p.dir, base)
            &&& d.name@ == name_for(p.dir, base)
            &&& config.workspace is Some ==> d.workspace@ == config.workspace->0@
            &&& config.workspace is None ==> d.workspace@ == d.name@
            &&& config.workflow is Some ==> d.workflow@ == config.workflow->0@
            &&& config.workflow is None ==> d.workflow@ == "default"@
            &&& d.terragrunt
            &&& patterns.len() == own + p.watch_files.len()
            &&& config.include_self_in_watch ==> patterns[0]@ == "./**"@
            &&& 0 <= k < p.watch_files.len() ==> ({
                let seen = watch_pattern(path_between(p.dir, p.watch_files[k]));
                if seen.len() >= 2 && seen[0] == '.' && seen[1] == '.' {
                    patterns[own + k]@ == seen
                } else {
                    patterns[own + k]@ == seq!['.', '/'] + seen
                }
            })
            &&& d.depends_on@.len() == p.project_dependencies.len()
            &&& 0 <= k < p.project_dependencies.len() ==> d.depends_on@[k]@ == name_for(p.project_dependencies[k], base)
            &&& d.layer == layers_of(projects)[p.name]
        }),
{
    let base = opt_text(config.base_dir);
    let p = projects[i];
    let d = out.projects@[i];
    assert(is_digger_project(projects, p, config, d));
    let patterns = d.include_patterns@;
    let all = include_patterns(p, config.include_self_in_watch);
    assert(texts(patterns) == all);
    assert(patterns.len() == all.len());
    assert(texts(d.depends_on@).len() == d.depends_on@.len());
    let own = if config.include_self_in_watch {
        1int
    } else {
        0
    };
    if config.include_self_in_watch {
        assert(all[0] == "./**"@);
        assert(texts(patterns)[0] == patterns[0]@);
    }
    if 0 <= k < p.watch_files.len() {
        let seen = watch_pattern(path_between(p.dir, p.watch_files[k]));
        assert(watch_patterns(p.dir, p.watch_files)[k] == seen);
        assert(all[own + k] == dotted(seen));
        assert(texts(patterns)[own + k] == patterns[own + k]@);
        reveal_strlit("..");
        reveal_strlit("./");
        assert("./"@ =~= seq!['.', '/']);
        if begins_with(seen, ".."@) {
            let front = seen.subrange(0, 2);
            assert(front[0] == seen[0] && front[1] == seen[1]);
        }
        if seen.len() >= 2 && seen[0] == '.' && seen[1] == '.' {
            assert(seen.subrange(0, 2) =~= ".."@);
        }
    }
    if 0 <= k < p.project_dependencies.len() {
        assert(texts(d.depends_on@)[k] == d.depends_on@[k]@);
        assert(names_for(p.project_dependencies, base)[k] == name_for(p.project_dependencies[k], base));
    }
}

// ------------------------------------------------------------------------- layers

proof fn lemma_name_of_dir(projects: Seq<ProjectView>, j: int)
    requires
        distinct_dirs(projects),
        0 <= j < projects.len(),
    ensures
        name_of_dir(projects, projects[j].dir) == Some(projects[j].name),
    decreases projects.len(),
{
    if j < projects.len() - 1 {
        let rest = projects.drop_last();
        assert(projects[j].dir != projects[projects.len() - 1].dir);
        assert(distinct_dirs(rest)) by {
            assert forall|i: int| 0 <= i < rest.len() implies #[trigger] rest[i] == projects[i] by {}
        }
        lemma_name_of_dir(rest, j);
    }
}

proof fn lemma_name_of_other(projects: Seq<ProjectView>, dir: Seq<char>)
    requires
        forall|j: int| 0 <= j < projects.len() ==> (#[trigger] projects[j]).dir != dir,
    ensures
        name_of_dir(projects, dir) is None,
    decreases projects.len(),
{
    if projects.len() > 0 {
        assert(projects[projects.len() - 1].dir != dir);
        assert forall|j: int| 0 <= j < projects.drop_last().len() implies (#[trigger] projects.drop_last()[j]).dir != dir by {
            assert(projects[j].dir != dir);
        }
        lemma_name_of_other(projects.drop_last(), dir);
    }
}

proof fn lemma_known(projects: Seq<ProjectView>, deps: Seq<Seq<char>>, j: int) -> (k: int)
    requires
        distinct_dirs(projects),
        0 <= j < projects.len(),
        deps.contains(projects[j].dir),
    ensures
        0 <= k < known_names(projects, deps).len(),
        known_names(projects, deps)[k] == projects[j].name,
    decreases deps.len(),
{
    let m = choose|m: int| 0 <= m < deps.len() && deps[m] == projects[j].dir;
    if m < deps.len() - 1 {
        assert(deps.drop_last()[m] == projects[j].dir);
        lemma_known(projects, deps.drop_last(), j)
    } else {
        lemma_name_of_dir(projects, j);
        known_names(projects, deps).len() - 1
    }
}

proof fn lemma_known_back(projects: Seq<ProjectView>, deps: Seq<Seq<char>>, k: int) -> (j: int)
    requires
        distinct_dirs(projects),
        0 <= k < known_names(projects, deps).len(),
    ensures
        0 <= j < projects.len(),
        deps.contains(projects[j].dir),
        known_names(projects, deps)[k] == projects[j].name,
    decreases deps.len(),
{
    let before = known_names(projects, deps.drop_last());
    if k < before.len() {
        let j = lemma_known_back(projects, deps.drop_last(), k);
        let m = choose|m: int| 0 <= m < deps.drop_last().len() && deps.drop_last()[m] == projects[j].dir;
        assert(deps[m] == projects[j].dir);
        j
    } else {
        let dir = deps.last();
        if forall|j: int| 0 <= j < projects.len() ==> (#[trigger] projects[j]).dir != dir {
            lemma_name_of_other(projects, dir);
        }
        let j = choose|j: int| 0 <= j < projects.len() && (#[trigger] projects[j]).dir == dir;
        lemma_name_of_dir(projects, j);
        assert(deps[deps.len() - 1] == dir);
        j
    }
}

proof fn lemma_layer_above_one(layers: Layers, names: Seq<Seq<char>>) -> (k: int)
    requires
        layer_above(layers, names) > 0,
    ensures
        0 <= k < names.len(),
        layers[names[k]] + 1 == layer_above(layers, names),
    decreases names.len(),
{
    let before = layer_above(layers, names.drop_last());
    let this = layers[names.last()] + 1;
    if before < this {
        names.len() - 1
    } else {
        let k = lemma_layer_above_one(layers, names.drop_last());
        assert(names.drop_last()[k] == names[k]);
        k
    }
}

/// A project that does not lead into a cycle comes in a later group than each project that it depends on, and no
/// later than it has to: it is in the first group, or in the one behind that of one of its dependencies. A project
/// that leads into a cycle is in the first group.
pub proof fn law_groups_follow_dependencies(projects: Seq<ProjectView>, i: int, j: int)
    requires
        projects.len() <= u32::MAX,
        distinct_names(projects),
        distinct_dirs(projects),
        0 <= i < projects.len(),
        0 <= j < projects.len(),
    ensures
        ({
            let layers = layers_of(projects);
            if leads_to_cycle(dependency_arcs(projects, projects), projects[i].name) {
                layers[projects[i].name] == 0
            } else {
                &&& projects[i].project_dependencies.contains(projects[j].dir) ==> layers[projects[j].name]
                    < layers[projects[i].name]
                &&& layers[projects[i].name] > 0 ==> exists|m: int|
                    0 <= m < projects.len() && projects[i].project_dependencies.contains((#[trigger] projects[m]).dir)
                        && layers[projects[m].name] + 1 == layers[projects[i].name]
            }
        }),
{
    let layers = layers_of(projects);
    let p = projects[i];
    law_untold_leads_to_cycle(projects, i);
    law_layers_follow_dependencies(projects, i);
    if settled_names(projects).contains(p.name) {
        if p.project_dependencies.contains(projects[j].dir) {
            let k = lemma_known(projects, p.project_dependencies, j);
            law_dependencies_run_first(projects, i, k);
        }
        if layers[p.name] > 0 {
            let names = known_names(projects, p.project_dependencies);
            let k = lemma_layer_above_one(layers, names);
            let m = lemma_known_back(projects, p.project_dependencies, k);
            assert(projects[m].name == names[k]);
            assert(p.project_dependencies.contains(projects[m].dir));
        }
    }
}

} // verus!
