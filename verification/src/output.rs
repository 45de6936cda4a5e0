//! The documents that are put out: a generic list of projects, and the configurations of
//! Atlantis and Digger.

use crate::layers::compute_layers;
#[allow(unused_imports)]
use crate::layers::layers_of;
use crate::path::{components, count_common, file_name, strip_prefix, text_of_part};
#[allow(unused_imports)]
use crate::path::{
    common_len, is_name, joined, last_name, lemma_common_len, lemma_parts_of_joined, lemma_path_parts_proper,
    lemma_split_concat, lemma_split_none, part_text, part_views, path_parts, path_text, piece_parts, stripped, PartView,
};
use crate::project::Project;
#[allow(unused_imports)]
use crate::project::{project_views, ProjectView};
#[allow(unused_imports)]
use crate::resolver::{lemma_up_and_down, normalized};
use crate::text::{clone_opt, concat, contains_char, join, starts_with, underscore};
#[allow(unused_imports)]
use crate::text::{begins_with, join_with, opt_text, split_on, texts, underscored};
use vstd::hash_map::StringHashMap;
use vstd::prelude::*;

verus! {

/// All discovered projects.
#[derive(Debug)]
pub struct Output {
    pub projects: Vec<Project>,
}

impl Output {
    pub fn new(projects: Vec<Project>) -> (res: Self)
        ensures
            res.projects == projects,
    {
        Output { projects }
    }
}

/// Output format options.
#[derive(Debug, Clone, Copy, PartialEq, Eq, Structural)]
pub enum OutputFormat {
    Json,
    Yaml,
    Atlantis,
    Digger,
}

/// Configuration options for output generation.
#[derive(Debug, Clone)]
pub struct OutputConfig {
    /// Base directory to make paths relative to
    pub base_dir: Option<String>,
    /// Terraform version (for Atlantis)
    pub terraform_version: Option<String>,
    /// Default workflow name
    pub workflow: Option<String>,
    /// Default workspace
    pub workspace: Option<String>,
    /// Whether to include the project's own directory in watch patterns
    pub include_self_in_watch: bool,
    /// Enable autoplan in Atlantis output (default: true)
    pub autoplan_enabled: bool,
    /// Enable automerge in Atlantis output (default: false)
    pub automerge: bool,
    /// Enable parallel_apply in Atlantis output (default: false)
    pub parallel_apply: bool,
}

impl Default for OutputConfig {
    fn default() -> (res: Self)
        ensures
            res.base_dir is None,
            res.terraform_version is None,
            opt_text(res.workflow) == Some("terragrunt"@),
            opt_text(res.workspace) == Some("default"@),
            res.include_self_in_watch,
            res.autoplan_enabled,
            !res.automerge,
            !res.parallel_apply,
    {
        OutputConfig {
            base_dir: None,
            terraform_version: None,
            workflow: Some("terragrunt".to_owned()),
            workspace: Some("default".to_owned()),
            include_self_in_watch: true,
            autoplan_enabled: true,
            automerge: false,
            parallel_apply: false,
        }
    }
}

// ------------------------------------------------------------- names and paths

/// `path`, seen from `base` where it lies below it; else `path` itself.
pub open spec fn relative_to(path: Seq<char>, base: Option<Seq<char>>) -> Seq<char> {
    match base {
        Some(b) => match stripped(path, b) {
            Some(rest) => rest,
            None => path,
        },
        None => path,
    }
}

/// Converts a path to relative form if a base directory is provided.
pub fn make_relative(path: &str, base_dir: &Option<String>) -> (res: String)
    ensures
        res@ == relative_to(path@, opt_text(*base_dir)),
{
    match base_dir {
        Some(base) => match strip_prefix(path, base.as_str()) {
            Some(rest) => rest,
            None => path.to_owned(),
        },
        None => path.to_owned(),
    }
}

/// Derives a project name from a relative directory path: slashes and backslashes become
/// underscores.
///
/// - "alarm_topic" -> "alarm_topic"
/// - "apps/pass/ecs_service" -> "apps_pass_ecs_service"
/// - "live/prod/vpc" -> "live_prod_vpc"
pub fn derive_name_from_dir(relative_dir: &str) -> (res: String)
    ensures
        res@ == underscored(relative_dir@),
{
    underscore(relative_dir)
}

/// The name of the project in the directory `dir`.
pub open spec fn name_for(dir: Seq<char>, base: Option<Seq<char>>) -> Seq<char> {
    underscored(relative_to(dir, base))
}

/// Converts a dependency path to a dependency name: the path is made relative to `base_dir`, and
/// the name is derived from that.
pub fn dependency_path_to_name(dep_path: &str, base_dir: &Option<String>) -> (res: String)
    ensures
        res@ == name_for(dep_path@, opt_text(*base_dir)),
{
    let relative = make_relative(dep_path, base_dir);
    derive_name_from_dir(relative.as_str())
}

/// The names of the projects in the given directories.
pub open spec fn names_for(dirs: Seq<Seq<char>>, base: Option<Seq<char>>) -> Seq<Seq<char>> {
    dirs.map_values(|d: Seq<char>| name_for(d, base))
}

pub fn dependency_names(deps: &Vec<String>, base_dir: &Option<String>) -> (res: Vec<String>)
    ensures
        texts(res@) == names_for(texts(deps@), opt_text(*base_dir)),
{
    let ghost base = opt_text(*base_dir);
    let mut out: Vec<String> = Vec::new();
    let mut i: usize = 0;
    while i < deps.len()
        invariant
            i <= deps@.len(),
            base == opt_text(*base_dir),
            texts(out@) == names_for(texts(deps@.take(i as int)), base),
        decreases deps@.len() - i,
    {
        let ghost before = out@;
        let name = dependency_path_to_name(deps[i].as_str(), base_dir);
        out.push(name);
        proof {
            assert(texts(out@) =~= texts(before).push(name@));
            assert(texts(deps@.take(i + 1)) =~= texts(deps@.take(i as int)).push(deps@[i as int]@));
            assert(names_for(texts(deps@.take(i + 1)), base) =~= names_for(texts(deps@.take(i as int)), base).push(
                name_for(deps@[i as int]@, base),
            ));
        }
        i += 1;
    }
    assert(deps@.take(i as int) =~= deps@);
    out
}

/// The paths, each seen from `base`.
pub open spec fn relative_paths(paths: Seq<Seq<char>>, base: Option<Seq<char>>) -> Seq<Seq<char>> {
    paths.map_values(|d: Seq<char>| relative_to(d, base))
}

fn relative_list(paths: &Vec<String>, base_dir: &Option<String>) -> (res: Vec<String>)
    ensures
        texts(res@) == relative_paths(texts(paths@), opt_text(*base_dir)),
{
    let ghost base = opt_text(*base_dir);
    let mut out: Vec<String> = Vec::new();
    let mut i: usize = 0;
    while i < paths.len()
        invariant
            i <= paths@.len(),
            base == opt_text(*base_dir),
            texts(out@) == relative_paths(texts(paths@.take(i as int)), base),
        decreases paths@.len() - i,
    {
        let ghost before = out@;
        let path = make_relative(paths[i].as_str(), base_dir);
        out.push(path);
        proof {
            assert(texts(out@) =~= texts(before).push(path@));
            assert(texts(paths@.take(i + 1)) =~= texts(paths@.take(i as int)).push(paths@[i as int]@));
            assert(relative_paths(texts(paths@.take(i + 1)), base) =~= relative_paths(
                texts(paths@.take(i as int)),
                base,
            ).push(relative_to(paths@[i as int]@, base)));
        }
        i += 1;
    }
    assert(paths@.take(i as int) =~= paths@);
    out
}

/// The path ends in a name without a dot, or in no name at all.
pub open spec fn is_directory_like(path: Seq<char>) -> bool {
    match last_name(path) {
        Some(name) => !name.contains('.'),
        None => true,
    }
}

/// Whether a path looks like a directory (no file extension). Used to detect terraform module
/// source paths, which need glob patterns.
pub fn looks_like_directory(path: &str) -> (res: bool)
    ensures
        res == is_directory_like(path@),
{
    match file_name(path) {
        Some(name) => !contains_char(name.as_str(), '.'),
        None => true,
    }
}

/// The pattern that watches `path`.
pub open spec fn watch_pattern(path: Seq<char>) -> Seq<char> {
    if is_directory_like(path) {
        path + "/**/*.tf"@
    } else {
        path
    }
}

/// Converts a watch file path to the appropriate pattern for CI tools: for directories
/// (terraform modules), the terraform files below them.
pub fn to_watch_pattern(relative_path: String) -> (res: String)
    ensures
        res@ == watch_pattern(relative_path@),
{
    if looks_like_directory(relative_path.as_str()) {
        concat(relative_path.as_str(), "/**/*.tf")
    } else {
        relative_path
    }
}

/// `n` times `..`.
pub open spec fn ups(n: nat) -> Seq<Seq<char>> {
    Seq::new(n, |i: int| ".."@)
}

/// The steps from one path to another: up to what they have in common, then down.
pub open spec fn steps_between(from: Seq<PartView>, to: Seq<PartView>) -> Seq<Seq<char>> {
    let common = common_len(from, to);
    ups((from.len() - common) as nat) + to.skip(common as int).map_values(|p: PartView| part_text(p))
}

/// The path that leads from the directory `from` to `to`.
pub open spec fn path_between(from: Seq<char>, to: Seq<char>) -> Seq<char> {
    let steps = steps_between(path_parts(from), path_parts(to));
    if steps.len() == 0 {
        "."@
    } else {
        join_with(steps, "/"@)
    }
}

/// Computes the relative path from one directory to another file or directory: a path that, when
/// resolved from `from_dir`, reaches `to_path`.
pub fn compute_relative_path(from_dir: &str, to_path: &str) -> (res: String)
    ensures
        res@ == path_between(from_dir@, to_path@),
{
    let from = components(from_dir);
    let to = components(to_path);
    let common: usize = count_common(&from, &to);
    let ghost a = path_parts(from_dir@);
    let ghost b = path_parts(to_path@);
    let mut steps: Vec<String> = Vec::new();
    let mut i: usize = common;
    while i < from.len()
        invariant
            common <= i <= from@.len(),
            texts(steps@) == ups((i - common) as nat),
        decreases from@.len() - i,
    {
        let ghost before = steps@;
        steps.push("..".to_owned());
        i += 1;
        assert(texts(steps@) =~= texts(before).push(".."@));
        assert(ups((i - common) as nat) =~= ups((i - 1 - common) as nat).push(".."@));
    }
    let ghost up = ups((from@.len() - common) as nat);
    let mut j: usize = common;
    while j < to.len()
        invariant
            common <= j <= to@.len(),
            b == part_views(to@),
            texts(steps@) == up + b.subrange(common as int, j as int).map_values(|p: PartView| part_text(p)),
        decreases to@.len() - j,
    {
        let ghost before = steps@;
        let t = text_of_part(&to[j]);
        steps.push(t);
        j += 1;
        proof {
            assert(texts(steps@) =~= texts(before).push(t@));
            assert(b.subrange(common as int, j as int) =~= b.subrange(common as int, j - 1).push(b[j - 1]));
            assert(b.subrange(common as int, j as int).map_values(|p: PartView| part_text(p)) =~= b.subrange(
                common as int,
                j - 1,
            ).map_values(|p: PartView| part_text(p)).push(t@));
            assert(texts(steps@) =~= up + b.subrange(common as int, j as int).map_values(|p: PartView| part_text(p)));
        }
    }
    assert(b.subrange(common as int, j as int) =~= b.skip(common as int));
    if steps.len() == 0 {
        assert(texts(steps@).len() == 0);
        ".".to_owned()
    } else {
        assert(texts(steps@).len() > 0);
        join(&steps, "/")
    }
}

// -------------------------------------------------------------------- documents

/// Generic output format for JSON and YAML.
#[derive(Debug)]
pub struct GenericOutput {
    pub projects: Vec<GenericProject>,
}

#[derive(Debug)]
pub struct GenericProject {
    pub name: String,
    pub dir: String,
    pub dependencies: Vec<String>,
    pub watch_files: Vec<String>,
}

/// Atlantis output format.
#[derive(Debug)]
pub struct AtlantisOutput {
    pub version: u8,
    pub automerge: bool,
    pub parallel_plan: bool,
    pub parallel_apply: bool,
    pub projects: Vec<AtlantisProject>,
}

#[derive(Debug)]
pub struct AtlantisProject {
    pub name: String,
    pub dir: String,
    pub workspace: String,
    /// Left out of the document where there is none
    pub terraform_version: Option<String>,
    pub workflow: String,
    pub autoplan: AtlantisAutoplan,
    pub execution_order_group: u32,
}

#[derive(Debug)]
pub struct AtlantisAutoplan {
    pub when_modified: Vec<String>,
    pub enabled: bool,
}

/// Digger output format.
#[derive(Debug)]
pub struct DiggerOutput {
    pub projects: Vec<DiggerProject>,
}

#[derive(Debug)]
pub struct DiggerProject {
    pub name: String,
    pub dir: String,
    pub workspace: String,
    pub terragrunt: bool,
    pub workflow: String,
    pub include_patterns: Vec<String>,
    /// Left out of the document where it is empty
    pub depends_on: Vec<String>,
    pub layer: u32,
}

/// A document, with the notation it is to be written in.
#[derive(Debug)]
pub enum Document {
    /// A generic list of projects, in JSON
    Json(GenericOutput),
    /// A generic list of projects, in YAML
    Yaml(GenericOutput),
    /// A configuration of Atlantis, in YAML
    Atlantis(AtlantisOutput),
    /// A configuration of Digger, in YAML
    Digger(DiggerOutput),
}

/// `g` is the generic form of `p`.
pub open spec fn is_generic_project(p: ProjectView, config: OutputConfig, g: GenericProject) -> bool {
    let base = opt_text(config.base_dir);
    &&& g.dir@ == relative_to(p.dir, base)
    &&& g.name@ == name_for(p.dir, base)
    &&& texts(g.dependencies@) == names_for(p.project_dependencies, base)
    &&& texts(g.watch_files@) == relative_paths(p.watch_files, base)
}

/// Converts a project to its generic form.
pub fn to_generic_project(project: &Project, config: &OutputConfig) -> (res: GenericProject)
    ensures
        is_generic_project(project@, *config, res),
{
    let dir = make_relative(project.dir.as_str(), &config.base_dir);
    let name = derive_name_from_dir(dir.as_str());
    GenericProject {
        name,
        dir,
        dependencies: dependency_names(&project.project_dependencies, &config.base_dir),
        watch_files: relative_list(&project.watch_files, &config.base_dir),
    }
}

/// `out` holds the generic form of each project, in order.
pub open spec fn is_generic_output(projects: Seq<ProjectView>, config: OutputConfig, out: GenericOutput) -> bool {
    &&& out.projects@.len() == projects.len()
    &&& forall|i: int| 0 <= i < projects.len() ==> is_generic_project(projects[i], config, #[trigger] out.projects@[i])
}

/// The generic document.
pub fn generate_generic(projects: &[Project], config: &OutputConfig) -> (res: GenericOutput)
    ensures
        is_generic_output(project_views(projects@), *config, res),
{
    let ghost ps = project_views(projects@);
    let mut out: Vec<GenericProject> = Vec::new();
    let mut i: usize = 0;
    while i < projects.len()
        invariant
            i <= projects@.len(),
            ps == project_views(projects@),
            out@.len() == i,
            forall|j: int| 0 <= j < i ==> is_generic_project(ps[j], *config, #[trigger] out@[j]),
        decreases projects@.len() - i,
    {
        let g = to_generic_project(&projects[i], config);
        out.push(g);
        assert(ps[i as int] == projects@[i as int]@);
        i += 1;
    }
    GenericOutput { projects: out }
}

/// The text of an option, or a default.
pub open spec fn text_or(o: Option<String>, default: Seq<char>) -> Seq<char> {
    match o {
        Some(t) => t@,
        None => default,
    }
}

fn or_default(o: &Option<String>, default: &str) -> (res: String)
    ensures
        res@ == text_or(*o, default@),
{
    match o {
        Some(t) => t.clone(),
        None => default.to_owned(),
    }
}

/// The patterns that watch the given files, seen from `dir`.
pub open spec fn watch_patterns(dir: Seq<char>, files: Seq<Seq<char>>) -> Seq<Seq<char>> {
    files.map_values(|f: Seq<char>| watch_pattern(path_between(dir, f)))
}

/// The patterns under which Atlantis plans a project.
pub open spec fn when_modified(p: ProjectView, include_self: bool) -> Seq<Seq<char>> {
    (if include_self {
        seq!["**/*.hcl"@, "**/*.tf"@]
    } else {
        Seq::empty()
    }) + watch_patterns(p.dir, p.watch_files)
}

fn atlantis_patterns(p: &Project, include_self: bool) -> (res: Vec<String>)
    ensures
        texts(res@) == when_modified(p@, include_self),
{
    let mut out: Vec<String> = Vec::new();
    if include_self {
        out.push("**/*.hcl".to_owned());
        out.push("**/*.tf".to_owned());
    }
    let ghost head = texts(out@);
    assert(head =~= (if include_self {
        seq!["**/*.hcl"@, "**/*.tf"@]
    } else {
        Seq::empty()
    }));
    let ghost dir = p.dir@;
    let ghost files = texts(p.watch_files@);
    let mut i: usize = 0;
    assert(texts(out@) =~= head + watch_patterns(dir, files.take(0)));
    while i < p.watch_files.len()
        invariant
            i <= p.watch_files@.len(),
            dir == p.dir@,
            files == texts(p.watch_files@),
            texts(out@) == head + watch_patterns(dir, files.take(i as int)),
        decreases p.watch_files@.len() - i,
    {
        let ghost before = out@;
        let pattern = to_watch_pattern(compute_relative_path(p.dir.as_str(), p.watch_files[i].as_str()));
        out.push(pattern);
        proof {
            assert(texts(out@) =~= texts(before).push(pattern@));
            assert(files.take(i + 1) =~= files.take(i as int).push(files[i as int]));
            assert(watch_patterns(dir, files.take(i + 1)) =~= watch_patterns(dir, files.take(i as int)).push(
                pattern@,
            ));
            assert(texts(out@) =~= head + watch_patterns(dir, files.take(i + 1)));
        }
        i += 1;
    }
    assert(files.take(i as int) =~= files);
    out
}

/// `a` is the Atlantis project of `p`.
pub open spec fn is_atlantis_project(
    projects: Seq<ProjectView>,
    p: ProjectView,
    config: OutputConfig,
    a: AtlantisProject,
) -> bool {
    let base = opt_text(config.base_dir);
    &&& a.dir@ == relative_to(p.dir, base)
    &&& a.name@ == name_for(p.dir, base)
    &&& a.workspace@ == text_or(config.workspace, a.name@)
    &&& opt_text(a.terraform_version) == opt_text(config.terraform_version)
    &&& a.workflow@ == text_or(config.workflow, "terragrunt"@)
    &&& texts(a.autoplan.when_modified@) == when_modified(p, config.include_self_in_watch)
    &&& a.autoplan.enabled == config.autoplan_enabled
    &&& a.execution_order_group == layers_of(projects)[p.name]
}

/// `out` is the Atlantis configuration of the projects.
pub open spec fn is_atlantis_output(projects: Seq<ProjectView>, config: OutputConfig, out: AtlantisOutput) -> bool {
    &&& out.version == 3
    &&& out.automerge == config.automerge
    &&& out.parallel_plan
    &&& out.parallel_apply == config.parallel_apply
    &&& out.projects@.len() == projects.len()
    &&& forall|i: int|
        0 <= i < projects.len() ==> is_atlantis_project(projects, projects[i], config, #[trigger] out.projects@[i])
}

/// The layer of a project.
pub fn layer_of(layers: &StringHashMap<u32>, name: &str) -> (res: u32)
    requires
        layers@.contains_key(name@),
    ensures
        res == layers@[name@],
{
    match layers.get(name) {
        Some(layer) => *layer,
        None => 0,
    }
}

/// Generates the Atlantis configuration.
pub fn generate_atlantis(projects: &[Project], config: &OutputConfig) -> (res: AtlantisOutput)
    requires
        projects@.len() <= u32::MAX,
    ensures
        is_atlantis_output(project_views(projects@), *config, res),
{
    let ghost ps = project_views(projects@);
    let layers = compute_layers(projects);
    let mut out: Vec<AtlantisProject> = Vec::new();
    let mut i: usize = 0;
    while i < projects.len()
        invariant
            i <= projects@.len(),
            ps == project_views(projects@),
            layers@ == layers_of(ps),
            out@.len() == i,
            forall|j: int| 0 <= j < i ==> is_atlantis_project(ps, ps[j], *config, #[trigger] out@[j]),
        decreases projects@.len() - i,
    {
        let p = &projects[i];
        proof {
            assert(ps[i as int] == p@);
            crate::layers::lemma_all_layered(ps, i as int);
        }
        let dir = make_relative(p.dir.as_str(), &config.base_dir);
        let name = derive_name_from_dir(dir.as_str());
        let project = AtlantisProject {
            workspace: or_default(&config.workspace, name.as_str()),
            name,
            dir,
            terraform_version: clone_opt(&config.terraform_version),
            workflow: or_default(&config.workflow, "terragrunt"),
            autoplan: AtlantisAutoplan {
                when_modified: atlantis_patterns(p, config.include_self_in_watch),
                enabled: config.autoplan_enabled,
            },
            execution_order_group: layer_of(&layers, p.name.as_str()),
        };
        out.push(project);
        i += 1;
    }
    AtlantisOutput {
        version: 3,
        automerge: config.automerge,
        parallel_plan: true,
        parallel_apply: config.parallel_apply,
        projects: out,
    }
}

/// `pattern`, made to begin with a dot: Digger resolves such patterns from the project's
/// directory.
pub open spec fn dotted(pattern: Seq<char>) -> Seq<char> {
    if begins_with(pattern, ".."@) {
        pattern
    } else {
        "./"@ + pattern
    }
}

/// The patterns under which Digger runs a project.
pub open spec fn include_patterns(p: ProjectView, include_self: bool) -> Seq<Seq<char>> {
    (if include_self {
        seq!["./**"@]
    } else {
        Seq::empty()
    }) + watch_patterns(p.dir, p.watch_files).map_values(|t: Seq<char>| dotted(t))
}

fn digger_patterns(p: &Project, include_self: bool) -> (res: Vec<String>)
    ensures
        texts(res@) == include_patterns(p@, include_self),
{
    let mut out: Vec<String> = Vec::new();
    if include_self {
        out.push("./**".to_owned());
    }
    let ghost head = texts(out@);
    assert(head =~= (if include_self {
        seq!["./**"@]
    } else {
        Seq::empty()
    }));
    let files = atlantis_patterns(p, false);
    let ghost all = texts(files@);
    assert(all =~= watch_patterns(p@.dir, p@.watch_files));
    let mut i: usize = 0;
    assert(texts(out@) =~= head + all.take(0).map_values(|t: Seq<char>| dotted(t)));
    while i < files.len()
        invariant
            i <= files@.len(),
            all == texts(files@),
            texts(out@) == head + all.take(i as int).map_values(|t: Seq<char>| dotted(t)),
        decreases files@.len() - i,
    {
        let ghost before = out@;
        let pattern = if starts_with(files[i].as_str(), "..") {
            files[i].clone()
        } else {
            concat("./", files[i].as_str())
        };
        out.push(pattern);
        proof {
            assert(texts(out@) =~= texts(before).push(pattern@));
            assert(all.take(i + 1) =~= all.take(i as int).push(all[i as int]));
            assert(all.take(i + 1).map_values(|t: Seq<char>| dotted(t)) =~= all.take(i as int).map_values(
                |t: Seq<char>| dotted(t),
            ).push(pattern@));
            assert(texts(out@) =~= head + all.take(i + 1).map_values(|t: Seq<char>| dotted(t)));
        }
        i += 1;
    }
    assert(all.take(i as int) =~= all);
    out
}

/// `d` is the Digger project of `p`.
pub open spec fn is_digger_project(
    projects: Seq<ProjectView>,
    p: ProjectView,
    config: OutputConfig,
    d: DiggerProject,
) -> bool {
    let base = opt_text(config.base_dir);
    &&& d.dir@ == relative_to(p.dir, base)
    &&& d.name@ == name_for(p.dir, base)
    &&& d.workspace@ == text_or(config.workspace, d.name@)
    &&& d.terragrunt
    &&& d.workflow@ == text_or(config.workflow, "default"@)
    &&& texts(d.include_patterns@) == include_patterns(p, config.include_self_in_watch)
    &&& texts(d.depends_on@) == names_for(p.project_dependencies, base)
    &&& d.layer == layers_of(projects)[p.name]
}

/// `out` is the Digger configuration of the projects.
pub open spec fn is_digger_output(projects: Seq<ProjectView>, config: OutputConfig, out: DiggerOutput) -> bool {
    &&& out.projects@.len() == projects.len()
    &&& forall|i: int|
        0 <= i < projects.len() ==> is_digger_project(projects, projects[i], config, #[trigger] out.projects@[i])
}

/// Generates the Digger configuration.
pub fn generate_digger(projects: &[Project], config: &OutputConfig) -> (res: DiggerOutput)
    requires
        projects@.len() <= u32::MAX,
    ensures
        is_digger_output(project_views(projects@), *config, res),
{
    let ghost ps = project_views(projects@);
    let layers = compute_layers(projects);
    let mut out: Vec<DiggerProject> = Vec::new();
    let mut i: usize = 0;
    while i < projects.len()
        invariant
            i <= projects@.len(),
            ps == project_views(projects@),
            layers@ == layers_of(ps),
            out@.len() == i,
            forall|j: int| 0 <= j < i ==> is_digger_project(ps, ps[j], *config, #[trigger] out@[j]),
        decreases projects@.len() - i,
    {
        let p = &projects[i];
        proof {
            assert(ps[i as int] == p@);
            crate::layers::lemma_all_layered(ps, i as int);
        }
        let dir = make_relative(p.dir.as_str(), &config.base_dir);
        let name = derive_name_from_dir(dir.as_str());
        let project = DiggerProject {
            workspace: or_default(&config.workspace, name.as_str()),
            name,
            dir,
            terragrunt: true,
            workflow: or_default(&config.workflow, "default"),
            include_patterns: digger_patterns(p, config.include_self_in_watch),
            depends_on: dependency_names(&p.project_dependencies, &config.base_dir),
            layer: layer_of(&layers, p.name.as_str()),
        };
        out.push(project);
        i += 1;
    }
    DiggerOutput { projects: out }
}

/// Generates the document for the specified format.
pub fn generate_output(projects: &[Project], format: OutputFormat, config: &OutputConfig) -> (res: Document)
    requires
        projects@.len() <= u32::MAX,
    ensures
        match format {
            OutputFormat::Json => res matches Document::Json(out) && is_generic_output(
                project_views(projects@),
                *config,
                out,
            ),
            OutputFormat::Yaml => res matches Document::Yaml(out) && is_generic_output(
                project_views(projects@),
                *config,
                out,
            ),
            OutputFormat::Atlantis => res matches Document::Atlantis(out) && is_atlantis_output(
                project_views(projects@),
                *config,
                out,
            ),
            OutputFormat::Digger => res matches Document::Digger(out) && is_digger_output(
                project_views(projects@),
                *config,
                out,
            ),
        },
{
    match format {
        OutputFormat::Json => Document::Json(generate_generic(projects, config)),
        OutputFormat::Yaml => Document::Yaml(generate_generic(projects, config)),
        OutputFormat::Atlantis => Document::Atlantis(generate_atlantis(projects, config)),
        OutputFormat::Digger => Document::Digger(generate_digger(projects, config)),
    }
}

// ------------------------------------------------------------------------- laws

/// A path from the root that holds nothing but names.
pub open spec fn is_plain_absolute(path: Seq<char>) -> bool {
    let parts = path_parts(path);
    parts.len() > 0 && parts[0] is RootDir && forall|i: int| 1 <= i < parts.len() ==> #[trigger] parts[i] is Normal
}

proof fn lemma_split_of_join(steps: Seq<Seq<char>>)
    requires
        steps.len() > 0,
        forall|i: int| 0 <= i < steps.len() ==> !(#[trigger] steps[i]).contains('/'),
    ensures
        split_on(join_with(steps, seq!['/']), '/') == steps,
    decreases steps.len(),
{
    if steps.len() == 1 {
        assert(!steps[0].contains('/'));
        lemma_split_none(steps[0], '/');
        assert(steps =~= seq![steps[0]]);
    } else {
        let rest = steps.drop_last();
        assert forall|i: int| 0 <= i < rest.len() implies !(#[trigger] rest[i]).contains('/') by {
            assert(rest[i] == steps[i]);
        }
        lemma_split_of_join(rest);
        let last = steps[steps.len() - 1];
        assert(!last.contains('/'));
        lemma_split_none(last, '/');
        lemma_split_concat(join_with(rest, seq!['/']), '/', last);
        assert(rest + seq![last] =~= steps);
    }
}

proof fn lemma_join_begins(steps: Seq<Seq<char>>, sep: Seq<char>)
    requires
        steps.len() > 0,
        steps[0].len() > 0,
    ensures
        join_with(steps, sep).len() > 0,
        join_with(steps, sep)[0] == steps[0][0],
    decreases steps.len(),
{
    if steps.len() > 1 {
        lemma_join_begins(steps.drop_last(), sep);
    }
}

/// The parts that steps up and down stand for.
proof fn lemma_step_parts(k: nat, down: Seq<PartView>)
    requires
        forall|i: int| 0 <= i < down.len() ==> #[trigger] down[i] is Normal && is_name(down[i]->Normal_0),
    ensures
        piece_parts(ups(k) + down.map_values(|p: PartView| part_text(p))) == Seq::new(k, |i: int| PartView::ParentDir)
            + down,
    decreases k + down.len(),
{
    reveal_strlit("..");
    assert(".."@ =~= seq!['.', '.']);
    let names = down.map_values(|p: PartView| part_text(p));
    let steps = ups(k) + names;
    let parents = Seq::new(k, |i: int| PartView::ParentDir);
    if down.len() > 0 {
        let last = down[down.len() - 1];
        lemma_step_parts(k, down.drop_last());
        assert(steps.drop_last() =~= ups(k) + down.drop_last().map_values(|p: PartView| part_text(p)));
        assert(steps.last() == last->Normal_0);
        assert(piece_parts(steps) =~= parents + down);
    } else if k > 0 {
        let less = Seq::new((k - 1) as nat, |i: int| PartView::ParentDir);
        lemma_step_parts((k - 1) as nat, down);
        assert(steps.drop_last() =~= ups((k - 1) as nat) + names);
        assert(steps.last() == ".."@);
        assert(seq!['.', '.'].len() == 2);
        assert(seq!['.'].len() == 1);
        assert(piece_parts(steps) =~= parents + down);
    } else {
        assert(piece_parts(steps) =~= parents + down);
    }
}

/// The relative path leads back: seen from the directory that it was computed for, it is the path
/// that it was computed to.
pub proof fn law_relative_path_leads_back(from: Seq<char>, to: Seq<char>)
    requires
        is_plain_absolute(from),
        is_plain_absolute(to),
    ensures
        normalized(joined(from, path_between(from, to))) == path_text(path_parts(to)),
{
    let a = path_parts(from);
    let b = path_parts(to);
    let common = common_len(a, b);
    lemma_common_len(a, b);
    lemma_path_parts_proper(from);
    lemma_path_parts_proper(to);
    assert(common >= 1);
    let k = (a.len() - common) as nat;
    let down = b.skip(common as int);
    assert forall|i: int| 0 <= i < down.len() implies #[trigger] down[i] is Normal && is_name(down[i]->Normal_0) by {
        assert(down[i] == b[i + common]);
    }
    let steps = steps_between(a, b);
    let rel = path_between(from, to);
    let parents = Seq::new(k, |i: int| PartView::ParentDir);
    reveal_strlit("/");
    reveal_strlit("..");
    reveal_strlit(".");
    assert("/"@ =~= seq!['/']);
    assert(".."@ =~= seq!['.', '.']);
    assert("."@ =~= seq!['.']);
    assert(from.len() > 0) by {
        if from.len() == 0 {
            reveal_with_fuel(piece_parts, 2);
            assert(split_on(from, '/') =~= seq![Seq::empty()]);
            assert(split_on(from, '/').drop_last() =~= Seq::empty());
        }
    }
    lemma_step_parts(k, down);
    if steps.len() == 0 {
        assert(!seq!['.'].contains('/'));
        lemma_split_none(seq!['.'], '/');
        reveal_with_fuel(piece_parts, 2);
        assert(seq![seq!['.']].drop_last() =~= Seq::empty());
        assert(piece_parts(seq![seq!['.']]) =~= parents + down);
    } else {
        assert forall|i: int| 0 <= i < steps.len() implies !(#[trigger] steps[i]).contains('/') && steps[i].len() > 0 by {
            if i < k {
                assert(steps[i] == ".."@);
            } else {
                assert(steps[i] == part_text(down[i - k]));
            }
        }
        lemma_split_of_join(steps);
        assert(steps[0].len() > 0);
        lemma_join_begins(steps, seq!['/']);
        assert(rel[0] != '/') by {
            if steps[0][0] == '/' {
                assert(steps[0].contains('/'));
            }
        }
    }
    lemma_parts_of_joined(from, rel);
    assert(a + (parents + down) =~= a + parents + down);
    lemma_up_and_down(a, b, common);
}

} // verus!
