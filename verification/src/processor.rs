//! Processes terragrunt projects: loads their configurations with all that they include and read,
//! and collects dependencies and watch files.

use crate::names::NameSet;
use crate::parser::{DependencyKind, ExtractedDep};
#[allow(unused_imports)]
use crate::parser::{dep_views, DepView};
use crate::path::{components, join, parent, sorted_paths, strip_prefix, text_of_part, PathPart};
#[allow(unused_imports)]
use crate::path::{joined, ordered_paths, parent_of, part_text, part_views, path_parts, stripped, PartView};
use crate::project::Project;
#[allow(unused_imports)]
use crate::project::ProjectView;
use crate::resolver::ResolveContext;
#[allow(unused_imports)]
use crate::resolver::{first_of, path_asks, plain_context, resolved, ContextView};
use crate::syntax::{copy_value, HclValue};
#[allow(unused_imports)]
use crate::syntax::ValueView;
use crate::text::{concat, join as join_texts, sorted_unique, underscore};
#[allow(unused_imports)]
use crate::text::{join_with, opt_text, ordered, texts, underscored};
use crate::world::{Facts, Step};
#[allow(unused_imports)]
use crate::world::{QueryView, World};
use vstd::prelude::*;

verus! {

/// Errors that can occur during project processing, with their messages.
#[derive(Debug, PartialEq, Eq)]
pub enum ProcessError {
    /// A configuration could not be parsed
    ParseError(String),
    /// Something could not be read
    IoError(String),
    /// Configurations lead to each other without end
    CircularReference(String),
}

/// The text of an error.
pub open spec fn error_text(e: ErrorView) -> Seq<char> {
    match e {
        ErrorView::ParseError(m) => "Failed to parse config: "@ + m,
        ErrorView::IoError(m) => "IO error: "@ + m,
        ErrorView::CircularReference(m) => "Circular reference detected: "@ + m,
    }
}

impl ProcessError {
    /// The text of the error.
    pub fn to_text(&self) -> (res: String)
        ensures
            res@ == error_text(self@),
    {
        match self {
            ProcessError::ParseError(m) => concat("Failed to parse config: ", m.as_str()),
            ProcessError::IoError(m) => concat("IO error: ", m.as_str()),
            ProcessError::CircularReference(m) => concat("Circular reference detected: ", m.as_str()),
        }
    }
}

/// What an error is.
pub enum ErrorView {
    ParseError(Seq<char>),
    IoError(Seq<char>),
    CircularReference(Seq<char>),
}

impl View for ProcessError {
    type V = ErrorView;

    open spec fn view(&self) -> ErrorView {
        match self {
            ProcessError::ParseError(m) => ErrorView::ParseError(m@),
            ProcessError::IoError(m) => ErrorView::IoError(m@),
            ProcessError::CircularReference(m) => ErrorView::CircularReference(m@),
        }
    }
}

/// Result of processing a single project.
#[derive(Debug, PartialEq, Eq)]
pub enum ProjectResult {
    /// Successfully processed project
    Processed(Project),
    /// Failed to process: path and error message
    Failed { path: String, error: String },
}

/// What the processing of a project came to.
pub enum ProjectResultView {
    Processed(ProjectView),
    Failed { path: Seq<char>, error: Seq<char> },
}

impl View for ProjectResult {
    type V = ProjectResultView;

    open spec fn view(&self) -> ProjectResultView {
        match self {
            ProjectResult::Processed(p) => ProjectResultView::Processed(p@),
            ProjectResult::Failed { path, error } => ProjectResultView::Failed { path: path@, error: error@ },
        }
    }
}

// ---------------------------------------------------------------------- names

/// The directories that say nothing about a project.
pub open spec fn is_skipped(name: Seq<char>) -> bool {
    name == "live"@ || name == "terragrunt"@ || name == "infrastructure"@ || name == "infra"@ || name == "repo"@ || name
        == "projects"@
}

/// The names in a path that say something about a project.
pub open spec fn telling_names(parts: Seq<PartView>) -> Seq<Seq<char>>
    decreases parts.len(),
{
    if parts.len() == 0 {
        Seq::empty()
    } else {
        let before = telling_names(parts.drop_last());
        match parts.last() {
            PartView::Normal(t) => if is_skipped(t) {
                before
            } else {
                before.push(t)
            },
            _ => before,
        }
    }
}

/// The name of the project in a directory.
pub open spec fn project_name(dir: Seq<char>) -> Seq<char> {
    let names = telling_names(path_parts(dir));
    if names.len() == 0 {
        "unknown"@
    } else {
        join_with(names, "_"@)
    }
}

fn skipped(name: &str) -> (res: bool)
    ensures
        res == is_skipped(name@),
{
    crate::text::same(name, "live") || crate::text::same(name, "terragrunt") || crate::text::same(name, "infrastructure")
        || crate::text::same(name, "infra") || crate::text::same(name, "repo") || crate::text::same(name, "projects")
}

/// Derives a project name from its path: the names in it joined with underscores, without common
/// directories like "live", "terragrunt", "infrastructure" or "repo".
///
/// - "/repo/live/prod/vpc" -> "prod_vpc"
/// - "/terragrunt/staging/app" -> "staging_app"
pub fn derive_project_name(path: &str) -> (res: String)
    ensures
        res@ == project_name(path@),
{
    let parts = components(path);
    let ghost views = path_parts(path@);
    let mut names: Vec<String> = Vec::new();
    let mut i: usize = 0;
    assert(views.take(0) =~= Seq::empty());
    assert(texts(names@) =~= Seq::empty());
    while i < parts.len()
        invariant
            i <= parts@.len(),
            views == part_views(parts@),
            texts(names@) == telling_names(views.take(i as int)),
        decreases parts@.len() - i,
    {
        let ghost before = texts(names@);
        assert(views.take(i + 1).drop_last() =~= views.take(i as int));
        assert(views.take(i + 1).last() == parts@[i as int]@);
        match &parts[i] {
            PathPart::Normal(t) => {
                if !skipped(t.as_str()) {
                    names.push(t.clone());
                    assert(texts(names@) =~= before.push(t@));
                }
            },
            _ => {},
        }
        i += 1;
    }
    assert(views.take(i as int) =~= views);
    assert(texts(names@).len() == names@.len());
    if names.len() == 0 {
        "unknown".to_owned()
    } else {
        join_texts(&names, "_")
    }
}

/// The texts of parts.
pub open spec fn part_texts(parts: Seq<PartView>) -> Seq<Seq<char>> {
    parts.map_values(|p: PartView| part_text(p))
}

/// The last two of a list, or all where there are not more.
pub open spec fn last_two<T>(s: Seq<T>) -> Seq<T> {
    if s.len() <= 2 {
        s
    } else {
        s.skip(s.len() - 2)
    }
}

/// The name of the dependency at a path: the path seen from beside the project, or the last two
/// parts of it where it lies elsewhere.
pub open spec fn dependency_name(dep: Seq<char>, project_dir: Seq<char>) -> Seq<char> {
    let base = match parent_of(project_dir) {
        Some(p) => p,
        None => project_dir,
    };
    match stripped(dep, base) {
        Some(rest) => underscored(rest),
        None => join_with(last_two(part_texts(path_parts(dep))), "_"@),
    }
}

/// Derives a dependency name from a resolved path.
pub fn derive_dependency_name(dep_path: &str, project_dir: &str) -> (res: String)
    ensures
        res@ == dependency_name(dep_path@, project_dir@),
{
    let base = match parent(project_dir) {
        Some(p) => p,
        None => project_dir.to_owned(),
    };
    match strip_prefix(dep_path, base.as_str()) {
        Some(rest) => underscore(rest.as_str()),
        None => {
            let parts = components(dep_path);
            let ghost views = path_parts(dep_path@);
            let start: usize = if parts.len() <= 2 {
                0
            } else {
                parts.len() - 2
            };
            let mut names: Vec<String> = Vec::new();
            let mut i: usize = start;
            while i < parts.len()
                invariant
                    start <= i <= parts@.len(),
                    names@.len() == i - start,
                    forall|j: int| 0 <= j < names@.len() ==> (#[trigger] names@[j])@ == part_text(parts@[start + j]@),
                decreases parts@.len() - i,
            {
                let t = text_of_part(&parts[i]);
                names.push(t);
                i += 1;
            }
            assert(part_texts(views).len() == parts@.len());
            assert(texts(names@) =~= last_two(part_texts(views)));
            join_texts(&names, "_")
        },
    }
}

// --------------------------------------------------------------------- loading

/// How the dependencies of a project are recorded.
#[derive(Debug, Clone, Copy, PartialEq, Eq, Structural)]
pub enum DependencyStyle {
    /// By name
    Name,
    /// By the path of their directory
    Path,
}

/// What a project is loaded with.
#[derive(Debug, PartialEq, Eq)]
pub struct LoadPlan {
    /// The original project directory (for find_in_parent_folders)
    pub project_dir: String,
    /// The directory that dependency targets are seen from, where it is another than that of the
    /// configuration: a unit of a stack is configured in its module, and its dependencies lie
    /// beside the place where it is generated
    pub unit_dir: Option<String>,
    /// The bound `values` of a unit of a stack
    pub values: Option<HclValue>,
    pub style: DependencyStyle,
}

pub struct PlanView {
    pub project_dir: Seq<char>,
    pub unit_dir: Option<Seq<char>>,
    pub values: Option<ValueView>,
    pub style: DependencyStyle,
}

impl View for LoadPlan {
    type V = PlanView;

    open spec fn view(&self) -> PlanView {
        PlanView {
            project_dir: self.project_dir@,
            unit_dir: opt_text(self.unit_dir),
            values: crate::resolver::opt_value(self.values),
            style: self.style,
        }
    }
}

/// What has been loaded so far.
pub struct LoadState {
    /// The configurations that were visited, by the paths that they lead to
    pub visited: NameSet,
    pub dependencies: Vec<String>,
    pub watch_files: Vec<String>,
    pub has_source: bool,
}

pub struct LoadView {
    pub visited: Seq<Seq<char>>,
    pub dependencies: Seq<Seq<char>>,
    pub watch_files: Seq<Seq<char>>,
    pub has_source: bool,
}

impl View for LoadState {
    type V = LoadView;

    open spec fn view(&self) -> LoadView {
        LoadView {
            visited: self.visited@,
            dependencies: texts(self.dependencies@),
            watch_files: texts(self.watch_files@),
            has_source: self.has_source,
        }
    }
}

/// The path that `path` leads to, or `path` itself where it leads nowhere.
pub open spec fn real_path(w: World, path: Seq<char>) -> Seq<char> {
    match (w.canonical)(path) {
        Some(t) => t,
        None => path,
    }
}

/// What the paths in a configuration are resolved in.
pub open spec fn config_context(plan: PlanView, dir: Seq<char>) -> ContextView {
    ContextView { values: plan.values, ..plain_context(dir, plan.project_dir) }
}

/// What the dependency targets in a configuration are resolved in: those of a unit of a stack are
/// seen from where the unit is generated.
pub open spec fn target_context(plan: PlanView, dir: Seq<char>, own: bool) -> ContextView {
    match plan.unit_dir {
        Some(unit) => ContextView {
            values: plan.values,
            ..plain_context(
                if own {
                    unit
                } else {
                    dir
                },
                unit,
            )
        },
        None => config_context(plan, dir),
    }
}

/// How a dependency is recorded.
pub open spec fn recorded(plan: PlanView, target: Seq<char>) -> Seq<char> {
    match plan.style {
        DependencyStyle::Name => dependency_name(target, plan.project_dir),
        DependencyStyle::Path => target,
    }
}

/// How a configuration comes to be loaded.
#[derive(Debug, Clone, Copy, PartialEq, Eq, Structural)]
pub enum Via {
    /// It is the project's own
    Own,
    /// It is included, by the project's own configuration or by an included one
    Include,
    /// It is read
    Read,
}

/// How the target of a dependency comes to be loaded.
pub open spec fn next_via(via: Via, kind: DependencyKind) -> Via {
    if kind == DependencyKind::Include && via != Via::Read {
        Via::Include
    } else {
        Via::Read
    }
}

/// What is known when the configuration at `path` has been loaded behind what was loaded before.
///
/// A configuration that was visited before is left alone, and so is one that is not there. The
/// nesting may be `depth` deep.
pub open spec fn loaded(w: World, plan: PlanView, path: Seq<char>, via: Via, st: LoadView, depth: nat) -> Result<
    LoadView,
    ErrorView,
>
    decreases depth, 0nat,
{
    if depth == 0 {
        Err(ErrorView::CircularReference(path))
    } else if st.visited.contains(real_path(w, path)) {
        Ok(st)
    } else {
        let here = LoadView { visited: st.visited.push(real_path(w, path)), ..st };
        if !(w.present)(path) {
            Ok(here)
        } else {
            match (w.config)(path) {
                Err(m) => Err(ErrorView::ParseError(m)),
                Ok(config) => followed(
                    w,
                    plan,
                    match parent_of(path) {
                        Some(p) => p,
                        None => plan.project_dir,
                    },
                    via,
                    config.deps,
                    LoadView { has_source: here.has_source || (via != Via::Read && config.has_terraform_source), ..here },
                    (depth - 1) as nat,
                ),
            }
        }
    }
}

/// What is known when the dependencies of a configuration in `dir` have been followed in turn.
pub open spec fn followed(
    w: World,
    plan: PlanView,
    dir: Seq<char>,
    via: Via,
    deps: Seq<DepView>,
    st: LoadView,
    depth: nat,
) -> Result<LoadView, ErrorView>
    decreases depth, deps.len() + 1,
{
    if deps.len() == 0 {
        Ok(st)
    } else {
        match followed(w, plan, dir, via, deps.drop_last(), st, depth) {
            Err(m) => Err(m),
            Ok(now) => {
                let dep = deps.last();
                match dep.kind {
                    DependencyKind::Project => match first_of(
                        resolved(w, dep.path, target_context(plan, dir, via == Via::Own)).paths,
                    ) {
                        Some(t) => Ok(LoadView { dependencies: now.dependencies.push(recorded(plan, t)), ..now }),
                        None => Ok(now),
                    },
                    kind => match first_of(resolved(w, dep.path, config_context(plan, dir)).paths) {
                        Some(t) => {
                            let watched = LoadView { watch_files: now.watch_files.push(t), ..now };
                            if kind == DependencyKind::Include || kind == DependencyKind::ReadConfig {
                                loaded(w, plan, t, next_via(via, kind), watched, depth)
                            } else {
                                Ok(watched)
                            }
                        },
                        None => Ok(now),
                    },
                }
            },
        }
    }
}

/// Nothing loaded.
pub open spec fn nothing_loaded() -> LoadView {
    LoadView { visited: Seq::empty(), dependencies: Seq::empty(), watch_files: Seq::empty(), has_source: false }
}

/// The project in `dir`, loaded by the plan; configurations may lead to each other as deep as a
/// machine word can count.
pub open spec fn project_of(w: World, dir: Seq<char>, plan: PlanView) -> Result<ProjectView, ErrorView> {
    match loaded(w, plan, joined(dir, "terragrunt.hcl"@), Via::Own, nothing_loaded(), usize::MAX as nat) {
        Err(m) => Err(m),
        Ok(st) => Ok(
            ProjectView {
                name: project_name(dir),
                dir,
                project_dependencies: ordered(st.dependencies),
                watch_files: ordered_paths(st.watch_files),
                has_terraform_source: st.has_source,
            },
        ),
    }
}

/// Loading the configuration at `path` asks for `q`.
pub open spec fn load_asks(
    w: World,
    plan: PlanView,
    path: Seq<char>,
    via: Via,
    st: LoadView,
    depth: nat,
    q: QueryView,
) -> bool
    decreases depth, 0nat,
{
    if depth == 0 {
        false
    } else if q == QueryView::Canonical(path) {
        true
    } else if st.visited.contains(real_path(w, path)) {
        false
    } else if q == QueryView::Present(path) {
        true
    } else if !(w.present)(path) {
        false
    } else if q == QueryView::Config(path) {
        true
    } else {
        let here = LoadView { visited: st.visited.push(real_path(w, path)), ..st };
        match (w.config)(path) {
            Err(_) => false,
            Ok(config) => follow_asks(
                w,
                plan,
                match parent_of(path) {
                    Some(p) => p,
                    None => plan.project_dir,
                },
                via,
                config.deps,
                LoadView { has_source: here.has_source || (via != Via::Read && config.has_terraform_source), ..here },
                (depth - 1) as nat,
                q,
            ),
        }
    }
}

/// Following the dependencies of a configuration in `dir` asks for `q`.
pub open spec fn follow_asks(
    w: World,
    plan: PlanView,
    dir: Seq<char>,
    via: Via,
    deps: Seq<DepView>,
    st: LoadView,
    depth: nat,
    q: QueryView,
) -> bool
    decreases depth, deps.len() + 1,
{
    if deps.len() == 0 {
        false
    } else {
        follow_asks(w, plan, dir, via, deps.drop_last(), st, depth, q) || match followed(
            w,
            plan,
            dir,
            via,
            deps.drop_last(),
            st,
            depth,
        ) {
            Err(_) => false,
            Ok(now) => {
                let dep = deps.last();
                match dep.kind {
                    DependencyKind::Project => path_asks(w, dep.path, target_context(plan, dir, via == Via::Own), q),
                    kind => path_asks(w, dep.path, config_context(plan, dir), q) || match first_of(
                        resolved(w, dep.path, config_context(plan, dir)).paths,
                    ) {
                        Some(t) => (kind == DependencyKind::Include || kind == DependencyKind::ReadConfig) && load_asks(
                            w,
                            plan,
                            t,
                            next_via(via, kind),
                            LoadView { watch_files: now.watch_files.push(t), ..now },
                            depth,
                            q,
                        ),
                        None => false,
                    },
                }
            },
        }
    }
}

/// Processing the project in `dir` asks for `q`.
pub open spec fn project_asks(w: World, dir: Seq<char>, plan: PlanView, q: QueryView) -> bool {
    load_asks(w, plan, joined(dir, "terragrunt.hcl"@), Via::Own, nothing_loaded(), usize::MAX as nat, q)
}

proof fn lemma_follow_asks(
    w: World,
    plan: PlanView,
    dir: Seq<char>,
    via: Via,
    deps: Seq<DepView>,
    st: LoadView,
    depth: nat,
    k: int,
    q: QueryView,
)
    requires
        0 <= k <= deps.len(),
        follow_asks(w, plan, dir, via, deps.take(k), st, depth, q),
    ensures
        follow_asks(w, plan, dir, via, deps, st, depth, q),
    decreases deps.len(),
{
    if k == deps.len() {
        assert(deps.take(k) =~= deps);
    } else {
        assert(deps.drop_last().take(k) =~= deps.take(k));
        lemma_follow_asks(w, plan, dir, via, deps.drop_last(), st, depth, k, q);
    }
}

/// The view of what loading came to.
pub open spec fn load_result(r: Result<LoadState, ProcessError>) -> Result<LoadView, ErrorView> {
    match r {
        Ok(st) => Ok(st@),
        Err(e) => Err(e@),
    }
}

impl LoadPlan {
    fn context(&self, config_dir: String, project_dir: String) -> (res: ResolveContext)
        ensures
            res@ == (ContextView { values: self@.values, ..plain_context(config_dir@, project_dir@) }),
    {
        let plain = ResolveContext::for_included_config(config_dir, project_dir);
        match &self.values {
            Some(v) => plain.with_values(copy_value(v)),
            None => plain,
        }
    }

    fn config_context(&self, dir: &str) -> (res: ResolveContext)
        ensures
            res@ == config_context(self@, dir@),
    {
        self.context(dir.to_owned(), self.project_dir.clone())
    }

    fn target_context(&self, dir: &str, own: bool) -> (res: ResolveContext)
        ensures
            res@ == target_context(self@, dir@, own),
    {
        match &self.unit_dir {
            Some(unit) => if own {
                self.context(unit.clone(), unit.clone())
            } else {
                self.context(dir.to_owned(), unit.clone())
            },
            None => self.config_context(dir),
        }
    }

    fn record(&self, target: &str) -> (res: String)
        ensures
            res@ == recorded(self@, target@),
    {
        match self.style {
            DependencyStyle::Name => derive_dependency_name(target, self.project_dir.as_str()),
            DependencyStyle::Path => target.to_owned(),
        }
    }
}

/// The path that `path` leads to, or `path` itself where it leads nowhere.
pub fn find_real_path(facts: &Facts, path: &str) -> (res: Step<String>)
    ensures
        match res {
            Step::Done(t) => forall|w: World| #[trigger] facts.agrees(w) ==> t@ == real_path(w, path@),
            Step::Need(q) => !facts.knows(q@) && q@ == QueryView::Canonical(path@),
        },
{
    match facts.canonical(path) {
        Step::Need(q) => Step::Need(q),
        Step::Done(Some(t)) => Step::Done(t),
        Step::Done(None) => Step::Done(path.to_owned()),
    }
}

/// Loads a configuration file, and all that it includes and reads, and collects its dependencies.
///
/// Dependencies are resolved in the context of the file that they stand in: relative paths from
/// the directory of the file, find_in_parent_folders from the project directory.
fn load_config_recursive(
    facts: &Facts,
    plan: &LoadPlan,
    config_path: &str,
    via: Via,
    st: LoadState,
    depth: usize,
) -> (res: Step<Result<LoadState, ProcessError>>)
    ensures
        match res {
            Step::Done(r) => forall|w: World| #[trigger]
                facts.agrees(w) ==> load_result(r) == loaded(w, plan@, config_path@, via, st@, depth as nat),
            Step::Need(q) => !facts.knows(q@) && forall|w: World| #[trigger]
                facts.agrees(w) ==> load_asks(w, plan@, config_path@, via, st@, depth as nat, q@),
        },
    decreases depth, 0nat,
{
    if depth == 0 {
        return Step::Done(Err(ProcessError::CircularReference(config_path.to_owned())));
    }
    let target = match find_real_path(facts, config_path) {
        Step::Need(q) => {
            return Step::Need(q);
        },
        Step::Done(t) => t,
    };
    if st.visited.contains(target.as_str()) {
        return Step::Done(Ok(st));
    }
    let ghost before = st@;
    let LoadState { visited, dependencies, watch_files, has_source } = st;
    let (visited, _at) = visited.insert(target.as_str());
    let there = match facts.present(config_path) {
        Step::Need(q) => {
            return Step::Need(q);
        },
        Step::Done(b) => b,
    };
    if !there {
        return Step::Done(Ok(LoadState { visited, dependencies, watch_files, has_source }));
    }
    let config = match facts.config(config_path) {
        Step::Need(q) => {
            return Step::Need(q);
        },
        Step::Done(c) => c,
    };
    match config {
        Err(m) => Step::Done(Err(ProcessError::ParseError(m.clone()))),
        Ok(c) => {
            let dir = match parent(config_path) {
                Some(p) => p,
                None => plan.project_dir.clone(),
            };
            let counts = match via {
                Via::Read => false,
                _ => true,
            };
            let now = LoadState {
                visited,
                dependencies,
                watch_files,
                has_source: has_source || (counts && c.has_terraform_source),
            };
            assert(c@.deps == dep_views(c.deps@));
            follow_deps(facts, plan, dir.as_str(), via, &c.deps, now, depth - 1)
        },
    }
}

/// Follows the dependencies of a configuration in turn.
fn follow_deps(
    facts: &Facts,
    plan: &LoadPlan,
    dir: &str,
    via: Via,
    deps: &Vec<ExtractedDep>,
    st: LoadState,
    depth: usize,
) -> (res: Step<Result<LoadState, ProcessError>>)
    ensures
        match res {
            Step::Done(r) => forall|w: World| #[trigger]
                facts.agrees(w) ==> load_result(r) == followed(w, plan@, dir@, via, dep_views(deps@), st@, depth as nat),
            Step::Need(q) => !facts.knows(q@) && forall|w: World| #[trigger]
                facts.agrees(w) ==> follow_asks(w, plan@, dir@, via, dep_views(deps@), st@, depth as nat, q@),
        },
    decreases depth, deps@.len() + 1,
{
    let ghost views = dep_views(deps@);
    let ghost start = st@;
    let ghost p = plan@;
    let ctx = plan.config_context(dir);
    let own = match via {
        Via::Own => true,
        _ => false,
    };
    let target_ctx = plan.target_context(dir, own);
    let mut now = st;
    let mut i: usize = 0;
    assert(views.take(0) =~= Seq::empty());
    while i < deps.len()
        invariant
            i <= deps@.len(),
            views == dep_views(deps@),
            p == plan@,
            start == st@,
            own == (via == Via::Own),
            ctx@ == config_context(p, dir@),
            target_ctx@ == target_context(p, dir@, own),
            forall|w: World| #[trigger]
                facts.agrees(w) ==> followed(w, p, dir@, via, views.take(i as int), start, depth as nat) == Ok::<
                    LoadView,
                    ErrorView,
                >(now@),
        decreases deps@.len() - i,
    {
        let ghost part = views.take(i + 1);
        proof {
            assert(part.drop_last() =~= views.take(i as int));
            assert(part.last() == deps@[i as int]@);
        }
        let dep = &deps[i];
        match dep.kind {
            DependencyKind::Project => {
                let (found, _events) = match target_ctx.resolve(facts, &dep.path) {
                    Step::Need(q) => {
                        proof {
                            assert forall|w: World| #[trigger] facts.agrees(w) implies follow_asks(
                                w,
                                p,
                                dir@,
                                via,
                                views,
                                start,
                                depth as nat,
                                q@,
                            ) by {
                                assert(follow_asks(w, p, dir@, via, part, start, depth as nat, q@));
                                lemma_follow_asks(w, p, dir@, via, views, start, depth as nat, i + 1, q@);
                            }
                        }
                        return Step::Need(q);
                    },
                    Step::Done(r) => r,
                };
                match found {
                    Some(t) => {
                        let ghost had = texts(now.dependencies@);
                        let name = plan.record(t.as_str());
                        let ghost nv = name@;
                        now.dependencies.push(name);
                        assert(texts(now.dependencies@) =~= had.push(nv));
                    },
                    None => {},
                }
            },
            kind => {
                let (found, _events) = match ctx.resolve(facts, &dep.path) {
                    Step::Need(q) => {
                        proof {
                            assert forall|w: World| #[trigger] facts.agrees(w) implies follow_asks(
                                w,
                                p,
                                dir@,
                                via,
                                views,
                                start,
                                depth as nat,
                                q@,
                            ) by {
                                assert(follow_asks(w, p, dir@, via, part, start, depth as nat, q@));
                                lemma_follow_asks(w, p, dir@, via, views, start, depth as nat, i + 1, q@);
                            }
                        }
                        return Step::Need(q);
                    },
                    Step::Done(r) => r,
                };
                match found {
                    Some(t) => {
                        let ghost had = texts(now.watch_files@);
                        let ghost tv = t@;
                        now.watch_files.push(t.clone());
                        assert(texts(now.watch_files@) =~= had.push(tv));
                        let into = match kind {
                            DependencyKind::Include => true,
                            DependencyKind::ReadConfig => true,
                            _ => false,
                        };
                        if into {
                            let next = match (via, kind) {
                                (Via::Read, _) => Via::Read,
                                (_, DependencyKind::Include) => Via::Include,
                                _ => Via::Read,
                            };
                            let ghost watched = now@;
                            match load_config_recursive(facts, plan, t.as_str(), next, now, depth) {
                                Step::Need(q) => {
                                    proof {
                                        assert forall|w: World| #[trigger] facts.agrees(w) implies follow_asks(
                                            w,
                                            p,
                                            dir@,
                                            via,
                                            views,
                                            start,
                                            depth as nat,
                                            q@,
                                        ) by {
                                            assert(follow_asks(w, p, dir@, via, part, start, depth as nat, q@));
                                            lemma_follow_asks(w, p, dir@, via, views, start, depth as nat, i + 1, q@);
                                        }
                                    }
                                    return Step::Need(q);
                                },
                                Step::Done(Err(e)) => {
                                    proof {
                                        assert forall|w: World| #[trigger] facts.agrees(w) implies followed(
                                            w,
                                            p,
                                            dir@,
                                            via,
                                            views,
                                            start,
                                            depth as nat,
                                        ) == Err::<LoadView, ErrorView>(e@) by {
                                            lemma_followed_stops(w, p, dir@, via, views, start, depth as nat, i + 1);
                                        }
                                    }
                                    return Step::Done(Err(e));
                                },
                                Step::Done(Ok(after)) => {
                                    now = after;
                                },
                            }
                        }
                    },
                    None => {},
                }
            },
        }
        i += 1;
    }
    assert(views.take(i as int) =~= views);
    Step::Done(Ok(now))
}

proof fn lemma_followed_stops(
    w: World,
    plan: PlanView,
    dir: Seq<char>,
    via: Via,
    deps: Seq<DepView>,
    st: LoadView,
    depth: nat,
    k: int,
)
    requires
        0 <= k <= deps.len(),
        followed(w, plan, dir, via, deps.take(k), st, depth) is Err,
    ensures
        followed(w, plan, dir, via, deps, st, depth) == followed(w, plan, dir, via, deps.take(k), st, depth),
    decreases deps.len(),
{
    if k == deps.len() {
        assert(deps.take(k) =~= deps);
    } else {
        assert(deps.drop_last().take(k) =~= deps.take(k));
        lemma_followed_stops(w, plan, dir, via, deps.drop_last(), st, depth, k);
    }
}

/// The view of what processing came to.
pub open spec fn process_result(r: Result<Project, ProcessError>) -> Result<ProjectView, ErrorView> {
    match r {
        Ok(p) => Ok(p@),
        Err(e) => Err(e@),
    }
}

/// Processes the project in `project_dir` by a plan: loads its `terragrunt.hcl` with all that it
/// includes and reads, and sorts what was found, each kept once.
pub fn process_project_by_plan(facts: &Facts, project_dir: &str, plan: &LoadPlan) -> (res: Step<
    Result<Project, ProcessError>,
>)
    ensures
        match res {
            Step::Done(r) => forall|w: World| #[trigger]
                facts.agrees(w) ==> process_result(r) == project_of(w, project_dir@, plan@),
            Step::Need(q) => !facts.knows(q@) && forall|w: World| #[trigger]
                facts.agrees(w) ==> project_asks(w, project_dir@, plan@, q@),
        },
{
    let file = join(project_dir, "terragrunt.hcl");
    let st = LoadState { visited: NameSet::new(), dependencies: Vec::new(), watch_files: Vec::new(), has_source: false };
    assert(texts(st.dependencies@) =~= Seq::empty());
    assert(texts(st.watch_files@) =~= Seq::empty());
    match load_config_recursive(facts, plan, file.as_str(), Via::Own, st, usize::MAX) {
        Step::Need(q) => Step::Need(q),
        Step::Done(Err(e)) => Step::Done(Err(e)),
        Step::Done(Ok(st)) => Step::Done(
            Ok(
                Project {
                    name: derive_project_name(project_dir),
                    dir: project_dir.to_owned(),
                    project_dependencies: sorted_unique(&st.dependencies),
                    watch_files: sorted_paths(&st.watch_files),
                    has_terraform_source: st.has_source,
                },
            ),
        ),
    }
}

/// The plan for a project that is on its own.
pub open spec fn own_plan(dir: Seq<char>, style: DependencyStyle) -> PlanView {
    PlanView { project_dir: dir, unit_dir: None, values: None, style }
}

/// Processes a single project, with its dependencies recorded by name.
pub fn process_project_with_deps(facts: &Facts, project_dir: &str) -> (res: Step<Result<Project, ProcessError>>)
    ensures
        match res {
            Step::Done(r) => forall|w: World| #[trigger]
                facts.agrees(w) ==> process_result(r) == project_of(
                    w,
                    project_dir@,
                    own_plan(project_dir@, DependencyStyle::Name),
                ),
            Step::Need(q) => !facts.knows(q@) && forall|w: World| #[trigger]
                facts.agrees(w) ==> project_asks(
                w,
                project_dir@,
                own_plan(project_dir@, DependencyStyle::Name),
                q@,
            ),
        },
{
    let plan = LoadPlan {
        project_dir: project_dir.to_owned(),
        unit_dir: None,
        values: None,
        style: DependencyStyle::Name,
    };
    process_project_by_plan(facts, project_dir, &plan)
}

/// Processes a single project with bound values, with its dependencies recorded by path.
pub fn process_project_with_deps_with_values(facts: &Facts, project_dir: &str, values: Option<HclValue>) -> (res: Step<
    Result<Project, ProcessError>,
>)
    ensures
        match res {
            Step::Done(r) => forall|w: World| #[trigger]
                facts.agrees(w) ==> process_result(r) == project_of(
                    w,
                    project_dir@,
                    PlanView {
                        values: crate::resolver::opt_value(values),
                        ..own_plan(project_dir@, DependencyStyle::Path)
                    },
                ),
            Step::Need(q) => !facts.knows(q@) && forall|w: World| #[trigger]
                facts.agrees(w) ==> project_asks(
                w,
                project_dir@,
                PlanView {
                    values: crate::resolver::opt_value(values),
                    ..own_plan(project_dir@, DependencyStyle::Path)
                },
                q@,
            ),
        },
{
    let plan = LoadPlan { project_dir: project_dir.to_owned(), unit_dir: None, values, style: DependencyStyle::Path };
    process_project_by_plan(facts, project_dir, &plan)
}

// ---------------------------------------------------------------- many projects

/// The views of a list of results.
pub open spec fn result_views(results: Seq<ProjectResult>) -> Seq<ProjectResultView> {
    results.map_values(|r: ProjectResult| r@)
}

/// What is reported of a project that was processed.
pub open spec fn outcome(dir: Seq<char>, r: Result<ProjectView, ErrorView>) -> ProjectResultView {
    match r {
        Ok(p) => ProjectResultView::Processed(p),
        Err(e) => ProjectResultView::Failed { path: dir, error: error_text(e) },
    }
}

/// Processes one project, and reports what came of it.
pub fn process_one(facts: &Facts, dir: &str, style: DependencyStyle) -> (res: Step<ProjectResult>)
    ensures
        match res {
            Step::Done(r) => forall|w: World| #[trigger]
                facts.agrees(w) ==> r@ == outcome(dir@, project_of(w, dir@, own_plan(dir@, style))),
            Step::Need(q) => !facts.knows(q@) && forall|w: World| #[trigger]
                facts.agrees(w) ==> project_asks(w, dir@, own_plan(dir@, style), q@),
        },
{
    let plan = LoadPlan { project_dir: dir.to_owned(), unit_dir: None, values: None, style };
    match process_project_by_plan(facts, dir, &plan) {
        Step::Need(q) => Step::Need(q),
        Step::Done(Ok(p)) => Step::Done(ProjectResult::Processed(p)),
        Step::Done(Err(e)) => Step::Done(ProjectResult::Failed { path: dir.to_owned(), error: e.to_text() }),
    }
}

/// Processes all discovered projects, and reports on each in turn.
pub fn process_all_projects(facts: &Facts, project_dirs: &Vec<String>, style: DependencyStyle) -> (res: Step<
    Vec<ProjectResult>,
>)
    ensures
        match res {
            Step::Done(r) => forall|w: World| #[trigger]
                facts.agrees(w) ==> result_views(r@) == texts(project_dirs@).map_values(
                    |d: Seq<char>| outcome(d, project_of(w, d, own_plan(d, style))),
                ),
            Step::Need(q) => !facts.knows(q@) && forall|w: World| #[trigger]
                facts.agrees(w) ==> exists|i: int|
                0 <= i < project_dirs@.len() && project_asks(
                    w,
                    (#[trigger] project_dirs@[i])@,
                    own_plan(project_dirs@[i]@, style),
                    q@,
                ),
        },
{
    let mut out: Vec<ProjectResult> = Vec::new();
    let mut i: usize = 0;
    while i < project_dirs.len()
        invariant
            i <= project_dirs@.len(),
            out@.len() == i,
            forall|w: World, j: int|
                #![trigger facts.agrees(w), out@[j]]
                facts.agrees(w) && 0 <= j < i ==> out@[j]@ == outcome(
                    project_dirs@[j]@,
                    project_of(w, project_dirs@[j]@, own_plan(project_dirs@[j]@, style)),
                ),
        decreases project_dirs@.len() - i,
    {
        match process_one(facts, project_dirs[i].as_str(), style) {
            Step::Need(q) => {
                return Step::Need(q);
            },
            Step::Done(r) => {
                out.push(r);
            },
        }
        i += 1;
    }
    proof {
        assert forall|w: World| #[trigger] facts.agrees(w) implies result_views(out@) == texts(project_dirs@).map_values(
            |d: Seq<char>| outcome(d, project_of(w, d, own_plan(d, style))),
        ) by {
            let f = |d: Seq<char>| outcome(d, project_of(w, d, own_plan(d, style)));
            let want = texts(project_dirs@).map_values(f);
            assert forall|j: int| 0 <= j < want.len() implies #[trigger] result_views(out@)[j] == want[j] by {
                assert(result_views(out@)[j] == out@[j]@);
                assert(want[j] == f(project_dirs@[j]@));
            }
            assert(result_views(out@) =~= want);
        }
    }
    Step::Done(out)
}

/// A project that nothing is known of but its directory.
pub open spec fn bare_project(dir: Seq<char>) -> ProjectView {
    ProjectView {
        name: project_name(dir),
        dir,
        project_dependencies: Seq::empty(),
        watch_files: Seq::empty(),
        has_terraform_source: false,
    }
}

fn process_single_project(path: &str) -> (res: ProjectResult)
    ensures
        res@ == ProjectResultView::Processed(bare_project(path@)),
{
    let p = Project {
        name: derive_project_name(path),
        dir: path.to_owned(),
        project_dependencies: Vec::new(),
        watch_files: Vec::new(),
        has_terraform_source: false,
    };
    assert(texts(p.project_dependencies@) =~= Seq::empty());
    assert(texts(p.watch_files@) =~= Seq::empty());
    ProjectResult::Processed(p)
}

/// Names the projects in the given directories, without looking into them.
pub fn process_projects(paths: &Vec<String>) -> (res: Vec<ProjectResult>)
    ensures
        result_views(res@) == texts(paths@).map_values(
            |d: Seq<char>| ProjectResultView::Processed(bare_project(d)),
        ),
{
    let mut out: Vec<ProjectResult> = Vec::new();
    let mut i: usize = 0;
    while i < paths.len()
        invariant
            i <= paths@.len(),
            out@.len() == i,
            forall|j: int|
                0 <= j < i ==> (#[trigger] out@[j])@ == ProjectResultView::Processed(bare_project(paths@[j]@)),
        decreases paths@.len() - i,
    {
        let r = process_single_project(paths[i].as_str());
        out.push(r);
        i += 1;
    }
    proof {
        let want = texts(paths@).map_values(|d: Seq<char>| ProjectResultView::Processed(bare_project(d)));
        assert forall|j: int| 0 <= j < want.len() implies #[trigger] result_views(out@)[j] == want[j] by {
            assert(result_views(out@)[j] == out@[j]@);
        }
        assert(result_views(out@) =~= want);
    }
    out
}

// ------------------------------------------------------------------------- laws

/// No configuration is visited twice, and what was visited, recorded and watched before stays, in
/// its place.
pub proof fn law_loading_only_adds(
    w: World,
    plan: PlanView,
    path: Seq<char>,
    via: Via,
    st: LoadView,
    depth: nat,
)
    requires
        st.visited.no_duplicates(),
        loaded(w, plan, path, via, st, depth) is Ok,
    ensures
        ({
            let after = loaded(w, plan, path, via, st, depth)->Ok_0;
            &&& after.visited.no_duplicates()
            &&& adds_to(st, after)
        }),
    decreases depth, 0nat,
{
    if depth > 0 && !st.visited.contains(real_path(w, path)) {
        let here = LoadView { visited: st.visited.push(real_path(w, path)), ..st };
        assert(here.visited.no_duplicates());
        assert(here.visited.take(st.visited.len() as int) =~= st.visited);
        assert(st.dependencies.take(st.dependencies.len() as int) =~= st.dependencies);
        assert(st.watch_files.take(st.watch_files.len() as int) =~= st.watch_files);
        assert(adds_to(st, here));
        if (w.present)(path) {
            let config = (w.config)(path)->Ok_0;
            let start = LoadView {
                has_source: here.has_source || (via != Via::Read && config.has_terraform_source),
                ..here
            };
            let dir = match parent_of(path) {
                Some(p) => p,
                None => plan.project_dir,
            };
            lemma_following_only_adds(w, plan, dir, via, config.deps, start, (depth - 1) as nat);
            let after = followed(w, plan, dir, via, config.deps, start, (depth - 1) as nat)->Ok_0;
            lemma_adds_to(st, start, after);
        }
    } else {
        assert(st.visited.take(st.visited.len() as int) =~= st.visited);
        assert(st.dependencies.take(st.dependencies.len() as int) =~= st.dependencies);
        assert(st.watch_files.take(st.watch_files.len() as int) =~= st.watch_files);
    }
}

/// What `a` holds is at the front of what `b` holds.
pub open spec fn adds_to(a: LoadView, b: LoadView) -> bool {
    &&& a.visited.len() <= b.visited.len() && b.visited.take(a.visited.len() as int) == a.visited
    &&& a.dependencies.len() <= b.dependencies.len() && b.dependencies.take(a.dependencies.len() as int)
        == a.dependencies
    &&& a.watch_files.len() <= b.watch_files.len() && b.watch_files.take(a.watch_files.len() as int) == a.watch_files
    &&& a.has_source ==> b.has_source
}

pub proof fn lemma_adds_to(a: LoadView, b: LoadView, c: LoadView)
    requires
        adds_to(a, b),
        adds_to(b, c),
    ensures
        adds_to(a, c),
{
    assert(c.visited.take(a.visited.len() as int) =~= b.visited.take(a.visited.len() as int)) by {
        assert(c.visited.take(b.visited.len() as int).take(a.visited.len() as int) =~= c.visited.take(
            a.visited.len() as int,
        ));
    }
    assert(c.dependencies.take(a.dependencies.len() as int) =~= b.dependencies.take(a.dependencies.len() as int)) by {
        assert(c.dependencies.take(b.dependencies.len() as int).take(a.dependencies.len() as int)
            =~= c.dependencies.take(a.dependencies.len() as int));
    }
    assert(c.watch_files.take(a.watch_files.len() as int) =~= b.watch_files.take(a.watch_files.len() as int)) by {
        assert(c.watch_files.take(b.watch_files.len() as int).take(a.watch_files.len() as int) =~= c.watch_files.take(
            a.watch_files.len() as int,
        ));
    }
}

pub proof fn lemma_following_only_adds(
    w: World,
    plan: PlanView,
    dir: Seq<char>,
    via: Via,
    deps: Seq<DepView>,
    st: LoadView,
    depth: nat,
)
    requires
        st.visited.no_duplicates(),
        followed(w, plan, dir, via, deps, st, depth) is Ok,
    ensures
        ({
            let after = followed(w, plan, dir, via, deps, st, depth)->Ok_0;
            &&& after.visited.no_duplicates()
            &&& adds_to(st, after)
        }),
    decreases depth, deps.len() + 1,
{
    if deps.len() == 0 {
        assert(st.visited.take(st.visited.len() as int) =~= st.visited);
        assert(st.dependencies.take(st.dependencies.len() as int) =~= st.dependencies);
        assert(st.watch_files.take(st.watch_files.len() as int) =~= st.watch_files);
    } else {
        lemma_following_only_adds(w, plan, dir, via, deps.drop_last(), st, depth);
        let now = followed(w, plan, dir, via, deps.drop_last(), st, depth)->Ok_0;
        let dep = deps.last();
        let after = followed(w, plan, dir, via, deps, st, depth)->Ok_0;
        assert(now.visited.take(now.visited.len() as int) =~= now.visited);
        assert(now.dependencies.take(now.dependencies.len() as int) =~= now.dependencies);
        assert(now.watch_files.take(now.watch_files.len() as int) =~= now.watch_files);
        if dep.kind == DependencyKind::Project {
            let found = first_of(resolved(w, dep.path, target_context(plan, dir, via == Via::Own)).paths);
            if found is Some {
                let more = now.dependencies.push(recorded(plan, found->0));
                assert(more.take(now.dependencies.len() as int) =~= now.dependencies);
            }
            assert(adds_to(now, after));
        } else {
            let found = first_of(resolved(w, dep.path, config_context(plan, dir)).paths);
            if found is Some {
                let watched = LoadView { watch_files: now.watch_files.push(found->0), ..now };
                assert(watched.watch_files.take(now.watch_files.len() as int) =~= now.watch_files);
                assert(adds_to(now, watched));
                if dep.kind == DependencyKind::Include || dep.kind == DependencyKind::ReadConfig {
                    law_loading_only_adds(w, plan, found->0, next_via(via, dep.kind), watched, depth);
                    lemma_adds_to(now, watched, after);
                }
            }
        }
        lemma_adds_to(st, now, after);
    }
}

/// Configurations that lead back to one that was visited do no harm: it is left alone.
pub proof fn law_visited_is_left_alone(
    w: World,
    plan: PlanView,
    path: Seq<char>,
    via: Via,
    st: LoadView,
    depth: nat,
)
    requires
        depth > 0,
        st.visited.contains(real_path(w, path)),
    ensures
        loaded(w, plan, path, via, st, depth) == Ok::<LoadView, ErrorView>(st),
{
}

/// The dependencies of a project are in order, and none is there twice; its watch files are in the
/// order of paths, and no path is there twice.
pub proof fn law_project_lists_are_ordered(w: World, dir: Seq<char>, plan: PlanView)
    requires
        project_of(w, dir, plan) is Ok,
    ensures
        crate::text::strictly_ordered(project_of(w, dir, plan)->Ok_0.project_dependencies),
        crate::path::paths_ordered(project_of(w, dir, plan)->Ok_0.watch_files),
{
    let st = loaded(w, plan, joined(dir, "terragrunt.hcl"@), Via::Own, nothing_loaded(), usize::MAX as nat)->Ok_0;
    crate::text::lemma_ordered(st.dependencies);
    crate::path::lemma_ordered_paths(st.watch_files);
}

} // verus!
