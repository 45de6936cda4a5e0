//! Resolves path expressions and evaluates terragrunt functions.

use crate::builtins::get_entry;
#[allow(unused_imports)]
use crate::builtins::entry;
#[allow(unused_imports)]
use crate::hcl_eval::{lazily, lazy_asks, ScopeView};
use crate::hcl_eval::{evaluate_expression, Scope};
use crate::parser::PathExpr;
#[allow(unused_imports)]
use crate::parser::{path_views, PathView};
use crate::path::{components, is_absolute, join, join_parts, parent, PathPart};
#[allow(unused_imports)]
use crate::path::{
    has_root, is_plain, joined, lemma_parts_of_text, lemma_path_parts_proper, lemma_root_part, parent_of, part_views,
    path_parts, path_text, proper, PartView,
};
use crate::syntax::{copy_value, Expr, HclValue};
#[allow(unused_imports)]
use crate::syntax::{entry_views, lemma_object_view, ExprView, ValueView};
use crate::text::{clone_opt, find_text, from_chars, to_chars};
#[allow(unused_imports)]
use crate::text::{occurs_at, opt_text, texts};
use crate::world::{Facts, Step};
#[allow(unused_imports)]
use crate::world::{QueryView, World};
use vstd::prelude::*;

verus! {

// -------------------------------------------------------------------- events

/// Something that happened on the way and does not stop the work.
#[derive(Debug, PartialEq, Eq)]
pub enum Event {
    /// The `values` of a unit could not be evaluated
    ValuesFailure,
    /// A path expression could not be evaluated
    SourcePathFailure,
    /// A function was called that would have read a file, while a stack file was evaluated
    FileCall { function: String, stack_file: String },
    /// A stack file that is being expanded already was not expanded again
    CycleSkipped,
    /// A stack with a remote source was not followed
    RemoteSkipped,
    /// The source of a stack holds no stack file
    MissingChild,
    /// A stack was not followed because the recursion was too deep
    DepthExceeded,
    /// A message for the user
    Warning(String),
}

/// What an event is.
pub enum EventView {
    ValuesFailure,
    SourcePathFailure,
    FileCall { function: Seq<char>, stack_file: Seq<char> },
    CycleSkipped,
    RemoteSkipped,
    MissingChild,
    DepthExceeded,
    Warning(Seq<char>),
}

impl View for Event {
    type V = EventView;

    open spec fn view(&self) -> EventView {
        match self {
            Event::ValuesFailure => EventView::ValuesFailure,
            Event::SourcePathFailure => EventView::SourcePathFailure,
            Event::FileCall { function, stack_file } => EventView::FileCall {
                function: function@,
                stack_file: stack_file@,
            },
            Event::CycleSkipped => EventView::CycleSkipped,
            Event::RemoteSkipped => EventView::RemoteSkipped,
            Event::MissingChild => EventView::MissingChild,
            Event::DepthExceeded => EventView::DepthExceeded,
            Event::Warning(t) => EventView::Warning(t@),
        }
    }
}

/// The views of a list of events.
pub open spec fn event_views(events: Seq<Event>) -> Seq<EventView> {
    events.map_values(|e: Event| e@)
}

/// The events that the calls of an evaluation are.
pub open spec fn call_events(calls: Seq<Seq<char>>, stack_file: Seq<char>) -> Seq<EventView> {
    calls.map_values(|c: Seq<char>| EventView::FileCall { function: c, stack_file })
}

/// Puts the calls of an evaluation behind the events.
pub fn add_call_events(events: &mut Vec<Event>, calls: &Vec<String>, stack_file: &str)
    ensures
        event_views(final(events)@) == event_views(old(events)@) + call_events(texts(calls@), stack_file@),
{
    let ghost before = event_views(events@);
    let ghost more = call_events(texts(calls@), stack_file@);
    let mut i: usize = 0;
    assert(before + more.take(0) =~= before);
    while i < calls.len()
        invariant
            i <= calls@.len(),
            more == call_events(texts(calls@), stack_file@),
            event_views(events@) == before + more.take(i as int),
        decreases calls@.len() - i,
    {
        let ghost had = event_views(events@);
        let e = Event::FileCall { function: calls[i].clone(), stack_file: stack_file.to_owned() };
        let ghost ev = e@;
        events.push(e);
        proof {
            assert(event_views(events@) =~= had.push(ev));
            assert(texts(calls@)[i as int] == calls@[i as int]@);
            assert(more[i as int] == ev);
            assert(before + more.take(i + 1) =~= had.push(ev));
        }
        i += 1;
    }
    assert(more.take(i as int) =~= more);
}

/// Puts one event behind the others.
pub fn add_event(events: &mut Vec<Event>, e: Event)
    ensures
        event_views(final(events)@) == event_views(old(events)@).push(e@),
{
    let ghost before = event_views(events@);
    let ghost ev = e@;
    events.push(e);
    assert(event_views(events@) =~= before.push(ev));
}

/// Puts events behind others.
pub fn add_events(events: &mut Vec<Event>, more: Vec<Event>)
    ensures
        event_views(final(events)@) == event_views(old(events)@) + event_views(more@),
{
    let ghost before = event_views(events@);
    let ghost added = event_views(more@);
    let mut rest = more;
    events.append(&mut rest);
    assert(event_views(events@) =~= before + added);
}

/// No events.
pub fn no_events() -> (res: Vec<Event>)
    ensures
        event_views(res@) == Seq::<EventView>::empty(),
{
    let res: Vec<Event> = Vec::new();
    assert(event_views(res@) =~= Seq::empty());
    res
}

// ------------------------------------------------------------------- context

/// Caller-facing knobs that influence soft-failure handling.
#[derive(Debug, Clone, Copy, PartialEq, Eq)]
pub struct ResolveOptions {
    /// When `true`, any recorded failure is an error once the expansion is complete, and functions
    /// that would read files fail.
    pub strict: bool,
    /// Hard limit on how deep `stack { source = "..." }` recursion is followed during expansion.
    pub max_recursion_depth: usize,
}

impl Default for ResolveOptions {
    fn default() -> (res: Self)
        ensures
            res == (ResolveOptions { strict: false, max_recursion_depth: 32 }),
    {
        ResolveOptions { strict: false, max_recursion_depth: 32 }
    }
}

/// Resolution context: the base paths for resolution, and what expressions are evaluated in.
#[derive(Debug, PartialEq, Eq)]
pub struct ResolveContext {
    /// The directory containing the current config file (for relative paths)
    pub config_dir: String,
    /// The original project directory (for find_in_parent_folders)
    pub project_dir: String,
    /// Bound `values` from a parent `terragrunt.stack.hcl` for the current expanded unit; `None`
    /// when this context is not evaluating a stack unit
    pub values: Option<HclValue>,
    /// Bound `local` object for the evaluation of source paths
    pub locals: Option<HclValue>,
    /// Directory of the parent stack file, what `get_parent_terragrunt_dir()` returns
    pub parent_dir: Option<String>,
    /// Resolution options
    pub options: ResolveOptions,
    /// The stack file that calls of file functions are recorded under
    pub stack_file: Option<String>,
}

/// What a resolution context holds.
pub struct ContextView {
    pub config_dir: Seq<char>,
    pub project_dir: Seq<char>,
    pub values: Option<ValueView>,
    pub locals: Option<ValueView>,
    pub parent_dir: Option<Seq<char>>,
    pub options: ResolveOptions,
    pub stack_file: Option<Seq<char>>,
}

/// The view of a value that may be missing.
pub open spec fn opt_value(o: Option<HclValue>) -> Option<ValueView> {
    match o {
        Some(v) => Some(v@),
        None => None,
    }
}

impl View for ResolveContext {
    type V = ContextView;

    open spec fn view(&self) -> ContextView {
        ContextView {
            config_dir: self.config_dir@,
            project_dir: self.project_dir@,
            values: opt_value(self.values),
            locals: opt_value(self.locals),
            parent_dir: opt_text(self.parent_dir),
            options: self.options,
            stack_file: opt_text(self.stack_file),
        }
    }
}

/// The context of a directory, with nothing bound.
pub open spec fn plain_context(config_dir: Seq<char>, project_dir: Seq<char>) -> ContextView {
    ContextView {
        config_dir,
        project_dir,
        values: None,
        locals: None,
        parent_dir: None,
        options: ResolveOptions { strict: false, max_recursion_depth: 32 },
        stack_file: None,
    }
}

/// The object without items.
pub open spec fn empty_object_view() -> ValueView {
    ValueView::Object(Seq::empty())
}

/// The object without items.
pub fn empty_object() -> (res: HclValue)
    ensures
        res@ == empty_object_view(),
{
    let items: Vec<(String, HclValue)> = Vec::new();
    proof {
        lemma_object_view(items);
        assert(entry_views(items@) =~= Seq::empty());
    }
    HclValue::Object(items)
}

/// What the expressions of a context are evaluated in.
pub open spec fn scope_of(c: ContextView) -> ScopeView {
    ScopeView {
        values: match c.values {
            Some(v) => v,
            None => empty_object_view(),
        },
        locals: match c.locals {
            Some(v) => v,
            None => empty_object_view(),
        },
        terragrunt_dir: c.project_dir,
        parent_dir: c.parent_dir,
        strict: c.options.strict,
    }
}

/// The name of the stack file, empty where there is none.
pub open spec fn file_of(c: ContextView) -> Seq<char> {
    match c.stack_file {
        Some(t) => t,
        None => Seq::empty(),
    }
}

// -------------------------------------------------------------- normal paths

/// The parts without `.`, and without any `..` that has something to go up from; there is nothing
/// above the root, so a `..` behind it stays at the root.
pub open spec fn normal_parts(parts: Seq<PartView>) -> Seq<PartView>
    decreases parts.len(),
{
    if parts.len() == 0 {
        Seq::empty()
    } else {
        let before = normal_parts(parts.drop_last());
        match parts.last() {
            PartView::ParentDir => if before.len() == 0 || before.last() is ParentDir {
                before.push(PartView::ParentDir)
            } else if before.last() is RootDir {
                before
            } else {
                before.drop_last()
            },
            PartView::CurDir => before,
            other => before.push(other),
        }
    }
}

/// The path with its `.` and `..` parts resolved.
pub open spec fn normalized(path: Seq<char>) -> Seq<char> {
    path_text(normal_parts(path_parts(path)))
}

/// Normalizes a path by resolving `.` and `..` parts, going up one level where possible. Nothing has
/// to be at the path.
pub fn normalize_path(path: &str) -> (res: String)
    ensures
        res@ == normalized(path@),
{
    let parts = components(path);
    let ghost views = path_parts(path@);
    let mut kept: Vec<PathPart> = Vec::new();
    let mut i: usize = 0;
    assert(views.take(0) =~= Seq::empty());
    assert(part_views(kept@) =~= Seq::empty());
    while i < parts.len()
        invariant
            i <= parts@.len(),
            views == part_views(parts@),
            part_views(kept@) == normal_parts(views.take(i as int)),
        decreases parts@.len() - i,
    {
        let ghost before = part_views(kept@);
        assert(views.take(i + 1).drop_last() =~= views.take(i as int));
        assert(views.take(i + 1).last() == parts@[i as int]@);
        match &parts[i] {
            PathPart::ParentDir => {
                let (up, root) = if kept.len() > 0 {
                    assert(before.last() == kept@[kept.len() - 1]@);
                    match &kept[kept.len() - 1] {
                        PathPart::ParentDir => (false, false),
                        PathPart::RootDir => (false, true),
                        _ => (true, false),
                    }
                } else {
                    (false, false)
                };
                if up {
                    let ghost was = kept@;
                    kept.pop();
                    assert(kept@ =~= was.drop_last());
                    assert(part_views(kept@) =~= before.drop_last());
                } else if !root {
                    kept.push(PathPart::ParentDir);
                    assert(part_views(kept@) =~= before.push(PartView::ParentDir));
                }
            },
            PathPart::CurDir => {},
            other => {
                let copy = other.clone();
                let ghost v = copy@;
                kept.push(copy);
                assert(part_views(kept@) =~= before.push(v));
            },
        }
        i += 1;
    }
    assert(views.take(i as int) =~= views);
    join_parts(&kept)
}

// ------------------------------------------------------------- walking upward

/// The file `filename` in `dir`, or in the nearest directory above it that has one.
pub open spec fn up_from(w: World, dir: Seq<char>, filename: Seq<char>) -> Option<Seq<char>>
    decreases path_parts(dir).len(),
{
    let candidate = joined(dir, filename);
    if (w.present)(candidate) {
        Some(candidate)
    } else {
        match parent_of(dir) {
            Some(p) => if path_parts(p).len() < path_parts(dir).len() {
                up_from(w, p, filename)
            } else {
                None
            },
            None => None,
        }
    }
}

/// The file `filename` in the nearest directory above `from` that has one.
pub open spec fn in_parent_folders(w: World, from: Seq<char>, filename: Seq<char>) -> Option<Seq<char>> {
    match parent_of(from) {
        Some(p) => up_from(w, p, filename),
        None => None,
    }
}

/// The walk from `dir` upward to `filename` asks for `q`.
pub open spec fn up_asks(w: World, dir: Seq<char>, filename: Seq<char>, q: QueryView) -> bool
    decreases path_parts(dir).len(),
{
    let candidate = joined(dir, filename);
    q == QueryView::Present(candidate) || (!(w.present)(candidate) && match parent_of(dir) {
        Some(p) => path_parts(p).len() < path_parts(dir).len() && up_asks(w, p, filename, q),
        None => false,
    })
}

/// The search for `filename` above `from` asks for `q`.
pub open spec fn folders_ask(w: World, from: Seq<char>, filename: Seq<char>, q: QueryView) -> bool {
    match parent_of(from) {
        Some(p) => up_asks(w, p, filename, q),
        None => false,
    }
}

/// Finds a file by walking up the directory tree, from the parent of `from` on.
pub fn find_in_parent_folders(facts: &Facts, from: &str, filename: &str) -> (res: Step<Option<String>>)
    ensures
        match res {
            Step::Done(p) => forall|w: World| #[trigger]
                facts.agrees(w) ==> opt_text(p) == in_parent_folders(w, from@, filename@),
            Step::Need(q) => !facts.knows(q@) && forall|w: World| #[trigger]
                facts.agrees(w) ==> folders_ask(w, from@, filename@, q@),
        },
{
    let mut current = match parent(from) {
        Some(p) => p,
        None => {
            return Step::Done(None);
        },
    };
    loop
        invariant
            forall|w: World| #[trigger]
                facts.agrees(w) ==> in_parent_folders(w, from@, filename@) == up_from(w, current@, filename@),
            forall|w: World, q: QueryView| #[trigger]
                facts.agrees(w) && #[trigger] up_asks(w, current@, filename@, q) ==> folders_ask(w, from@, filename@, q),
        decreases path_parts(current@).len(),
    {
        let candidate = join(current.as_str(), filename);
        let ghost here = current@;
        match facts.present(candidate.as_str()) {
            Step::Need(q) => {
                proof {
                    assert forall|w: World| #[trigger] facts.agrees(w) implies folders_ask(w, from@, filename@, q@) by {
                        assert(up_asks(w, here, filename@, q@));
                    }
                }
                return Step::Need(q);
            },
            Step::Done(found) => {
                if found {
                    return Step::Done(Some(candidate));
                }
            },
        }
        match parent(current.as_str()) {
            Some(p) => {
                proof {
                    assert forall|w: World, q: QueryView| #[trigger]
                        facts.agrees(w) && #[trigger] up_asks(w, p@, filename@, q) implies folders_ask(
                        w,
                        from@,
                        filename@,
                        q,
                    ) by {
                        assert(up_asks(w, here, filename@, q));
                    }
                }
                current = p;
            },
            None => {
                return Step::Done(None);
            },
        }
    }
}

/// `dir`, or the nearest directory above it, that holds `.git`; nothing where `.gitboundary` comes
/// first.
pub open spec fn root_from(w: World, dir: Seq<char>) -> Option<Seq<char>>
    decreases path_parts(dir).len(),
{
    if (w.present)(joined(dir, ".gitboundary"@)) {
        None
    } else if (w.present)(joined(dir, ".git"@)) {
        Some(dir)
    } else {
        match parent_of(dir) {
            Some(p) => if path_parts(p).len() < path_parts(dir).len() {
                root_from(w, p)
            } else {
                None
            },
            None => None,
        }
    }
}

/// The repository that `from` is in: the search begins in the directory of a file.
pub open spec fn repo_root_of(w: World, from: Seq<char>) -> Option<Seq<char>> {
    if (w.is_file)(from) {
        match parent_of(from) {
            Some(p) => root_from(w, p),
            None => None,
        }
    } else {
        root_from(w, from)
    }
}

/// The walk from `dir` upward to the root of the repository asks for `q`.
pub open spec fn root_asks(w: World, dir: Seq<char>, q: QueryView) -> bool
    decreases path_parts(dir).len(),
{
    q == QueryView::Present(joined(dir, ".gitboundary"@)) || (!(w.present)(joined(dir, ".gitboundary"@)) && (q
        == QueryView::Present(joined(dir, ".git"@)) || (!(w.present)(joined(dir, ".git"@)) && match parent_of(dir) {
        Some(p) => path_parts(p).len() < path_parts(dir).len() && root_asks(w, p, q),
        None => false,
    })))
}

/// The search for the repository that `from` is in asks for `q`.
pub open spec fn repo_asks(w: World, from: Seq<char>, q: QueryView) -> bool {
    q == QueryView::IsFile(from) || if (w.is_file)(from) {
        match parent_of(from) {
            Some(p) => root_asks(w, p, q),
            None => false,
        }
    } else {
        root_asks(w, from, q)
    }
}

/// Finds the repository root by walking up from the given path until `.git` is found.
pub fn find_repo_root(facts: &Facts, from: &str) -> (res: Step<Option<String>>)
    ensures
        match res {
            Step::Done(p) => forall|w: World| #[trigger] facts.agrees(w) ==> opt_text(p) == repo_root_of(w, from@),
            Step::Need(q) => !facts.knows(q@) && forall|w: World| #[trigger]
                facts.agrees(w) ==> repo_asks(w, from@, q@),
        },
{
    let mut current = match facts.is_file(from) {
        Step::Need(q) => {
            return Step::Need(q);
        },
        Step::Done(true) => match parent(from) {
            Some(p) => p,
            None => {
                return Step::Done(None);
            },
        },
        Step::Done(false) => from.to_owned(),
    };
    loop
        invariant
            forall|w: World| #[trigger] facts.agrees(w) ==> repo_root_of(w, from@) == root_from(w, current@),
            forall|w: World, q: QueryView| #[trigger]
                facts.agrees(w) && #[trigger] root_asks(w, current@, q) ==> repo_asks(w, from@, q),
        decreases path_parts(current@).len(),
    {
        let ghost here = current@;
        let boundary = join(current.as_str(), ".gitboundary");
        match facts.present(boundary.as_str()) {
            Step::Need(q) => {
                proof {
                    assert forall|w: World| #[trigger] facts.agrees(w) implies repo_asks(w, from@, q@) by {
                        assert(root_asks(w, here, q@));
                    }
                }
                return Step::Need(q);
            },
            Step::Done(found) => {
                if found {
                    return Step::Done(None);
                }
            },
        }
        let marker = join(current.as_str(), ".git");
        match facts.present(marker.as_str()) {
            Step::Need(q) => {
                proof {
                    assert forall|w: World| #[trigger] facts.agrees(w) implies repo_asks(w, from@, q@) by {
                        assert(root_asks(w, here, q@));
                    }
                }
                return Step::Need(q);
            },
            Step::Done(found) => {
                if found {
                    return Step::Done(Some(current));
                }
            },
        }
        match parent(current.as_str()) {
            Some(p) => {
                proof {
                    assert forall|w: World, q: QueryView| #[trigger]
                        facts.agrees(w) && #[trigger] root_asks(w, p@, q) implies repo_asks(w, from@, q) by {
                        assert(root_asks(w, here, q));
                    }
                }
                current = p;
            },
            None => {
                return Step::Done(None);
            },
        }
    }
}

// ---------------------------------------------------------- what paths come to

/// The paths that an expression comes to, and what happened on the way.
#[derive(Debug, PartialEq, Eq)]
pub struct Resolved {
    pub paths: Vec<String>,
    pub events: Vec<Event>,
}

pub struct ResolvedView {
    pub paths: Seq<Seq<char>>,
    pub events: Seq<EventView>,
}

impl View for Resolved {
    type V = ResolvedView;

    open spec fn view(&self) -> ResolvedView {
        ResolvedView { paths: texts(self.paths@), events: event_views(self.events@) }
    }
}

/// The given paths, and no event.
pub open spec fn quietly(paths: Seq<Seq<char>>) -> ResolvedView {
    ResolvedView { paths, events: Seq::empty() }
}

/// A path that may be missing, as a list.
pub open spec fn at_most_one(p: Option<Seq<char>>) -> Seq<Seq<char>> {
    match p {
        Some(t) => seq![t],
        None => Seq::empty(),
    }
}

/// The first path, where there is one.
pub open spec fn first_of(paths: Seq<Seq<char>>) -> Option<Seq<char>> {
    if paths.len() > 0 {
        Some(paths[0])
    } else {
        None
    }
}

/// A written path, seen from the directory of the configuration.
pub open spec fn from_config_dir(c: ContextView, path: Seq<char>) -> Seq<char> {
    normalized(joined(c.config_dir, path))
}

/// The directories that the paths are in, of those that are in one.
pub open spec fn parents_of(paths: Seq<Seq<char>>) -> Seq<Seq<char>>
    decreases paths.len(),
{
    if paths.len() == 0 {
        Seq::empty()
    } else {
        let before = parents_of(paths.drop_last());
        match parent_of(paths.last()) {
            Some(p) => before.push(p),
            None => before,
        }
    }
}

/// `s` with its first `%s` replaced by `arg`.
pub open spec fn fill_one(s: Seq<char>, arg: Seq<char>) -> Seq<char>
    decreases s.len(),
{
    if s.len() < 2 {
        s
    } else if s[0] == '%' && s[1] == 's' {
        arg + s.skip(2)
    } else {
        seq![s[0]] + fill_one(s.skip(1), arg)
    }
}

/// `fmt` with the arguments put in for `%s`, one after the other.
pub open spec fn filled(fmt: Seq<char>, args: Seq<Seq<char>>) -> Seq<char>
    decreases args.len(),
{
    if args.len() == 0 {
        fmt
    } else {
        fill_one(filled(fmt, args.drop_last()), args.last())
    }
}

/// The string that the keys lead to.
pub open spec fn value_at(v: ValueView, keys: Seq<Seq<char>>) -> Option<Seq<char>>
    decreases keys.len(),
{
    if keys.len() == 0 {
        match v {
            ValueView::String(t) => Some(t),
            _ => None,
        }
    } else {
        match v {
            ValueView::Object(items) => match entry(items, keys[0]) {
                Some(x) => value_at(x, keys.skip(1)),
                None => None,
            },
            _ => None,
        }
    }
}

/// The string that an expression evaluates to, and what happened on the way.
pub open spec fn expr_text(w: World, e: ExprView, c: ContextView) -> (Option<Seq<char>>, Seq<EventView>) {
    let a = lazily(w, e, scope_of(c), Seq::empty());
    let calls = call_events(a.file_calls, file_of(c));
    match a.result {
        Ok(ValueView::String(t)) => (Some(t), calls),
        _ => (None, calls.push(EventView::SourcePathFailure)),
    }
}

/// All paths that an expression may come to.
pub open spec fn resolved(w: World, p: PathView, c: ContextView) -> ResolvedView
    decreases p, 1int,
{
    match p {
        PathView::Literal(t) => quietly(seq![from_config_dir(c, t)]),
        PathView::FindInParentFolders(f) => quietly(
            at_most_one(
                in_parent_folders(
                    w,
                    c.project_dir,
                    match f {
                        Some(t) => t,
                        None => "terragrunt.hcl"@,
                    },
                ),
            ),
        ),
        PathView::GetRepoRoot => quietly(at_most_one(repo_root_of(w, c.project_dir))),
        PathView::GetTerragruntDir => quietly(seq![c.project_dir]),
        PathView::GetParentTerragruntDir => quietly(Seq::empty()),
        PathView::PathRelativeToInclude => quietly(Seq::empty()),
        PathView::PathRelativeFromInclude => quietly(Seq::empty()),
        PathView::Dirname(inner) => {
            let r = resolved(w, *inner, c);
            ResolvedView { paths: parents_of(r.paths), events: r.events }
        },
        PathView::Format { fmt, args } => {
            let (done, events) = first_paths(w, args, c);
            ResolvedView {
                paths: match done {
                    Some(t) => seq![
                        normalized(
                            if has_root(filled(fmt, t)) {
                                filled(fmt, t)
                            } else {
                                joined(c.config_dir, filled(fmt, t))
                            },
                        ),
                    ],
                    None => Seq::empty(),
                },
                events,
            }
        },
        PathView::Interpolation(parts) => if parts.len() == 0 {
            quietly(Seq::empty())
        } else {
            let (done, events) = spliced(w, parts, c);
            ResolvedView {
                paths: match done {
                    Some(t) => seq![normalized(t)],
                    None => Seq::empty(),
                },
                events,
            }
        },
        PathView::Conditional { true_branch, false_branch } => {
            let a = resolved(w, *true_branch, c);
            let b = resolved(w, *false_branch, c);
            ResolvedView { paths: a.paths + b.paths, events: a.events + b.events }
        },
        PathView::ValuesRef(keys) => quietly(
            match c.values {
                Some(v) => match value_at(v, keys) {
                    Some(t) => seq![from_config_dir(c, t)],
                    None => Seq::empty(),
                },
                None => Seq::empty(),
            },
        ),
        PathView::HclExpr(e) => {
            let (t, events) = expr_text(w, *e, c);
            ResolvedView {
                paths: match t {
                    Some(t) => seq![from_config_dir(c, t)],
                    None => Seq::empty(),
                },
                events,
            }
        },
        PathView::Unresolvable { func } => quietly(Seq::empty()),
    }
}

/// The first path of each expression, where all of them have one; they are resolved from the left
/// up to the first that has none.
pub open spec fn first_paths(w: World, items: Seq<PathView>, c: ContextView) -> (
    Option<Seq<Seq<char>>>,
    Seq<EventView>,
)
    decreases items, 0int,
{
    if items.len() == 0 {
        (Some(Seq::empty()), Seq::empty())
    } else {
        proof {
            assert(decreases_to!(items => items.drop_last()));
            assert(decreases_to!(items => items[items.len() - 1]));
        }
        let (before, events) = first_paths(w, items.drop_last(), c);
        match before {
            None => (None, events),
            Some(done) => {
                let r = resolved(w, items.last(), c);
                (
                    match first_of(r.paths) {
                        Some(t) => Some(done.push(t)),
                        None => None,
                    },
                    events + r.events,
                )
            },
        }
    }
}

/// The texts of the parts of an interpolation, put together. A literal stands for itself, an
/// expression for the string that it evaluates to, and anything else for its first path.
pub open spec fn spliced(w: World, items: Seq<PathView>, c: ContextView) -> (Option<Seq<char>>, Seq<EventView>)
    decreases items, 0int,
{
    if items.len() == 0 {
        (Some(Seq::empty()), Seq::empty())
    } else {
        proof {
            assert(decreases_to!(items => items.drop_last()));
            assert(decreases_to!(items => items[items.len() - 1]));
        }
        let (before, events) = spliced(w, items.drop_last(), c);
        match before {
            None => (None, events),
            Some(done) => {
                let (piece, more) = match items.last() {
                    PathView::Literal(t) => (Some(t), Seq::empty()),
                    PathView::HclExpr(e) => expr_text(w, *e, c),
                    other => {
                        let r = resolved(w, other, c);
                        (first_of(r.paths), r.events)
                    },
                };
                (
                    match piece {
                        Some(t) => Some(done + t),
                        None => None,
                    },
                    events + more,
                )
            },
        }
    }
}

/// Evaluating an expression of the context asks for `q`.
pub open spec fn expr_asks(w: World, e: ExprView, c: ContextView, q: QueryView) -> bool {
    lazy_asks(w, e, scope_of(c), Seq::empty(), q)
}

/// Resolving an expression asks for `q`.
pub open spec fn path_asks(w: World, p: PathView, c: ContextView, q: QueryView) -> bool
    decreases p, 1int,
{
    match p {
        PathView::FindInParentFolders(f) => folders_ask(
            w,
            c.project_dir,
            match f {
                Some(t) => t,
                None => "terragrunt.hcl"@,
            },
            q,
        ),
        PathView::GetRepoRoot => repo_asks(w, c.project_dir, q),
        PathView::Dirname(inner) => path_asks(w, *inner, c, q),
        PathView::Format { fmt, args } => firsts_ask(w, args, c, q),
        PathView::Interpolation(parts) => splices_ask(w, parts, c, q),
        PathView::Conditional { true_branch, false_branch } => path_asks(w, *true_branch, c, q) || path_asks(
            w,
            *false_branch,
            c,
            q,
        ),
        PathView::HclExpr(e) => expr_asks(w, *e, c, q),
        _ => false,
    }
}

/// Resolving the first path of each expression asks for `q`.
pub open spec fn firsts_ask(w: World, items: Seq<PathView>, c: ContextView, q: QueryView) -> bool
    decreases items, 0int,
{
    if items.len() == 0 {
        false
    } else {
        proof {
            assert(decreases_to!(items => items.drop_last()));
            assert(decreases_to!(items => items[items.len() - 1]));
        }
        firsts_ask(w, items.drop_last(), c, q) || (first_paths(w, items.drop_last(), c).0 is Some && path_asks(
            w,
            items.last(),
            c,
            q,
        ))
    }
}

/// Putting the parts of an interpolation together asks for `q`.
pub open spec fn splices_ask(w: World, items: Seq<PathView>, c: ContextView, q: QueryView) -> bool
    decreases items, 0int,
{
    if items.len() == 0 {
        false
    } else {
        proof {
            assert(decreases_to!(items => items.drop_last()));
            assert(decreases_to!(items => items[items.len() - 1]));
        }
        splices_ask(w, items.drop_last(), c, q) || (spliced(w, items.drop_last(), c).0 is Some && path_asks(
            w,
            items.last(),
            c,
            q,
        ))
    }
}

proof fn lemma_firsts_ask(w: World, items: Seq<PathView>, c: ContextView, k: int, q: QueryView)
    requires
        0 <= k <= items.len(),
        firsts_ask(w, items.take(k), c, q),
    ensures
        firsts_ask(w, items, c, q),
    decreases items.len(),
{
    if k == items.len() {
        assert(items.take(k) =~= items);
    } else {
        assert(items.drop_last().take(k) =~= items.take(k));
        lemma_firsts_ask(w, items.drop_last(), c, k, q);
    }
}

proof fn lemma_splices_ask(w: World, items: Seq<PathView>, c: ContextView, k: int, q: QueryView)
    requires
        0 <= k <= items.len(),
        splices_ask(w, items.take(k), c, q),
    ensures
        splices_ask(w, items, c, q),
    decreases items.len(),
{
    if k == items.len() {
        assert(items.take(k) =~= items);
    } else {
        assert(items.drop_last().take(k) =~= items.take(k));
        lemma_splices_ask(w, items.drop_last(), c, k, q);
    }
}

// ------------------------------------------------------------------- resolving

fn one_path(path: String) -> (res: Vec<String>)
    ensures
        texts(res@) == seq![path@],
{
    let mut out: Vec<String> = Vec::new();
    out.push(path);
    assert(texts(out@) =~= seq![path@]);
    out
}

fn no_paths() -> (res: Vec<String>)
    ensures
        texts(res@) == Seq::<Seq<char>>::empty(),
{
    let res: Vec<String> = Vec::new();
    assert(texts(res@) =~= Seq::empty());
    res
}

fn as_list(p: Option<String>) -> (res: Vec<String>)
    ensures
        texts(res@) == at_most_one(opt_text(p)),
{
    match p {
        Some(t) => one_path(t),
        None => no_paths(),
    }
}

proof fn lemma_fill_at(s: Seq<char>, arg: Seq<char>, i: int)
    requires
        0 <= i,
        i + 2 <= s.len(),
        s[i] == '%',
        s[i + 1] == 's',
        forall|j: int| 0 <= j < i ==> !(#[trigger] s[j] == '%' && s[j + 1] == 's'),
    ensures
        fill_one(s, arg) == s.take(i) + arg + s.skip(i + 2),
    decreases i,
{
    if i == 0 {
        assert(s.take(0) + arg + s.skip(2) =~= arg + s.skip(2));
    } else {
        assert(!(s[0] == '%' && s[1] == 's'));
        let r = s.skip(1);
        assert forall|j: int| 0 <= j < i - 1 implies !(#[trigger] r[j] == '%' && r[j + 1] == 's') by {
            assert(r[j] == s[j + 1]);
        }
        lemma_fill_at(r, arg, i - 1);
        assert(seq![s[0]] + (r.take(i - 1) + arg + r.skip(i + 1)) =~= s.take(i) + arg + s.skip(i + 2));
    }
}

proof fn lemma_fill_none(s: Seq<char>, arg: Seq<char>)
    requires
        forall|j: int| 0 <= j < s.len() - 1 ==> !(#[trigger] s[j] == '%' && s[j + 1] == 's'),
    ensures
        fill_one(s, arg) == s,
    decreases s.len(),
{
    if s.len() >= 2 {
        assert(!(s[0] == '%' && s[1] == 's'));
        let r = s.skip(1);
        assert forall|j: int| 0 <= j < r.len() - 1 implies !(#[trigger] r[j] == '%' && r[j + 1] == 's') by {
            assert(r[j] == s[j + 1]);
        }
        lemma_fill_none(r, arg);
        assert(seq![s[0]] + r =~= s);
    }
}

fn fill(s: &str, arg: &str) -> (res: String)
    ensures
        res@ == fill_one(s@, arg@),
{
    let found = find_text(s, "%s");
    let ghost pat = "%s"@;
    proof {
        reveal_strlit("%s");
        assert(pat =~= seq!['%', 's']);
        assert forall|j: int| 0 <= j < s@.len() - 1 && !occurs_at(s@, pat, j) implies !(#[trigger] s@[j] == '%' && s@[j
            + 1] == 's') by {
            if s@[j] == '%' && s@[j + 1] == 's' {
                assert(s@.subrange(j, j + 2) =~= pat);
            }
        }
    }
    match found {
        None => {
            proof {
                lemma_fill_none(s@, arg@);
            }
            s.to_owned()
        },
        Some(i) => {
            let chars = to_chars(s);
            proof {
                assert(s@.subrange(i as int, i + 2) == pat);
                assert(s@.subrange(i as int, i + 2)[0] == s@[i as int]);
                assert(s@.subrange(i as int, i + 2)[1] == s@[i + 1]);
                lemma_fill_at(s@, arg@, i as int);
            }
            let mut out = from_chars(&chars, 0, i);
            let rest = from_chars(&chars, i + 2, chars.len());
            out.append(arg);
            out.append(rest.as_str());
            assert(s@.subrange(0, i as int) =~= s@.take(i as int));
            assert(s@.subrange(i + 2, s@.len() as int) =~= s@.skip(i + 2));
            assert(out@ =~= s@.take(i as int) + arg@ + s@.skip(i + 2));
            out
        },
    }
}

/// Walks along the keys to a string. Nothing is returned if a key is missing, if the walk hits
/// what is no object, or if the last value is no string.
pub fn lookup_values_string(bound: &HclValue, keys: &Vec<String>) -> (res: Option<String>)
    ensures
        opt_text(res) == value_at(bound@, texts(keys@)),
{
    let ghost all = texts(keys@);
    let mut cursor = bound;
    let mut i: usize = 0;
    assert(all.skip(0) =~= all);
    while i < keys.len()
        invariant
            i <= keys@.len(),
            all == texts(keys@),
            value_at(bound@, all) == value_at(cursor@, all.skip(i as int)),
        decreases keys@.len() - i,
    {
        assert(all.skip(i as int)[0] == keys@[i as int]@);
        assert(all.skip(i as int).skip(1) =~= all.skip(i + 1));
        match cursor {
            HclValue::Object(items) => {
                proof {
                    lemma_object_view(*items);
                }
                match get_entry(items, keys[i].as_str()) {
                    Some(x) => {
                        cursor = x;
                    },
                    None => {
                        return None;
                    },
                }
            },
            _ => {
                return None;
            },
        }
        i += 1;
    }
    match cursor {
        HclValue::String(t) => Some(t.clone()),
        _ => None,
    }
}

impl ResolveContext {
    /// A resolution context for a project directory.
    pub fn new(project_dir: String) -> (res: ResolveContext)
        ensures
            res@ == plain_context(project_dir@, project_dir@),
    {
        ResolveContext {
            config_dir: project_dir.clone(),
            project_dir,
            values: None,
            locals: None,
            parent_dir: None,
            options: ResolveOptions { strict: false, max_recursion_depth: 32 },
            stack_file: None,
        }
    }

    /// A context for an included config file: `config_dir` for relative paths, `project_dir` for
    /// find_in_parent_folders.
    pub fn for_included_config(config_dir: String, project_dir: String) -> (res: ResolveContext)
        ensures
            res@ == plain_context(config_dir@, project_dir@),
    {
        ResolveContext {
            config_dir,
            project_dir,
            values: None,
            locals: None,
            parent_dir: None,
            options: ResolveOptions { strict: false, max_recursion_depth: 32 },
            stack_file: None,
        }
    }

    /// Attaches bound `values` from a parent `terragrunt.stack.hcl` unit.
    pub fn with_values(self, values: HclValue) -> (res: ResolveContext)
        ensures
            res@ == (ContextView { values: Some(values@), ..self@ }),
    {
        ResolveContext { values: Some(values), ..self }
    }

    /// Attaches bound `locals` for the evaluation of source paths.
    pub fn with_locals(self, locals: HclValue) -> (res: ResolveContext)
        ensures
            res@ == (ContextView { locals: Some(locals@), ..self@ }),
    {
        ResolveContext { locals: Some(locals), ..self }
    }

    /// Attaches the directory that `get_parent_terragrunt_dir()` returns.
    pub fn with_parent_dir(self, parent_dir: String) -> (res: ResolveContext)
        ensures
            res@ == (ContextView { parent_dir: Some(parent_dir@), ..self@ }),
    {
        ResolveContext { parent_dir: Some(parent_dir), ..self }
    }

    /// Applies resolution options.
    pub fn with_options(self, opts: ResolveOptions) -> (res: ResolveContext)
        ensures
            res@ == (ContextView { options: opts, ..self@ }),
    {
        ResolveContext { options: opts, ..self }
    }

    /// Attaches the stack file that calls of file functions are recorded under.
    pub fn with_stack_file(self, stack_file: String) -> (res: ResolveContext)
        ensures
            res@ == (ContextView { stack_file: Some(stack_file@), ..self@ }),
    {
        ResolveContext { stack_file: Some(stack_file), ..self }
    }

    /// What the expressions of the context are evaluated in.
    pub fn scope(&self) -> (res: Scope)
        ensures
            res@ == scope_of(self@),
    {
        Scope {
            values: match &self.values {
                Some(v) => copy_value(v),
                None => empty_object(),
            },
            locals: match &self.locals {
                Some(v) => copy_value(v),
                None => empty_object(),
            },
            terragrunt_dir: self.project_dir.clone(),
            parent_dir: clone_opt(&self.parent_dir),
            strict: self.options.strict,
        }
    }

    fn record_name(&self) -> (res: String)
        ensures
            res@ == file_of(self@),
    {
        match &self.stack_file {
            Some(t) => t.clone(),
            None => {
                let none = String::new();
                assert(none@ =~= Seq::empty());
                none
            },
        }
    }

    fn resolve_literal(&self, path: &str) -> (res: String)
        ensures
            res@ == from_config_dir(self@, path@),
    {
        let whole = join(self.config_dir.as_str(), path);
        normalize_path(whole.as_str())
    }

    /// Evaluates an expression to a string, without taking it for a path. A failure is recorded.
    fn evaluate_hcl_to_string(&self, facts: &Facts, expr: &Expr) -> (res: Step<(Option<String>, Vec<Event>)>)
        ensures
            match res {
                Step::Done(r) => forall|w: World| #[trigger]
                    facts.agrees(w) ==> (opt_text(r.0), event_views(r.1@)) == expr_text(w, expr@, self@),
                Step::Need(q) => !facts.knows(q@) && forall|w: World| #[trigger]
                facts.agrees(w) ==> expr_asks(w, expr@, self@, q@),
            },
    {
        let scope = self.scope();
        match evaluate_expression(facts, expr, &scope) {
            Step::Need(q) => Step::Need(q),
            Step::Done(a) => {
                let name = self.record_name();
                let mut events = no_events();
                add_call_events(&mut events, &a.file_calls, name.as_str());
                assert(event_views(events@) =~= call_events(texts(a.file_calls@), name@));
                match a.result {
                    Ok(HclValue::String(t)) => Step::Done((Some(t), events)),
                    _ => {
                        add_event(&mut events, Event::SourcePathFailure);
                        Step::Done((None, events))
                    },
                }
            },
        }
    }

    /// Resolves an expression to the first path that it may come to.
    pub fn resolve(&self, facts: &Facts, path_expr: &PathExpr) -> (res: Step<(Option<String>, Vec<Event>)>)
        ensures
            match res {
                Step::Done(r) => forall|w: World| #[trigger]
                    facts.agrees(w) ==> opt_text(r.0) == first_of(resolved(w, path_expr@, self@).paths)
                        && event_views(r.1@) == resolved(w, path_expr@, self@).events,
                Step::Need(q) => !facts.knows(q@) && forall|w: World| #[trigger]
                facts.agrees(w) ==> path_asks(w, path_expr@, self@, q@),
            },
        decreases path_expr, 2int,
    {
        match self.resolve_all(facts, path_expr) {
            Step::Need(q) => Step::Need(q),
            Step::Done(r) => {
                let ghost paths = texts(r.paths@);
                let first = if r.paths.len() > 0 {
                    assert(paths[0] == r.paths@[0]@);
                    Some(r.paths[0].clone())
                } else {
                    None
                };
                Step::Done((first, r.events))
            },
        }
    }

    /// Resolves an expression to all paths that it may come to: both branches of a conditional, and
    /// none where the expression cannot be resolved.
    pub fn resolve_all(&self, facts: &Facts, path_expr: &PathExpr) -> (res: Step<Resolved>)
        ensures
            match res {
                Step::Done(r) => forall|w: World| #[trigger] facts.agrees(w) ==> r@ == resolved(w, path_expr@, self@),
                Step::Need(q) => !facts.knows(q@) && forall|w: World| #[trigger]
                facts.agrees(w) ==> path_asks(w, path_expr@, self@, q@),
            },
        decreases path_expr, 1int,
    {
        match path_expr {
            PathExpr::Literal(t) => Step::Done(
                Resolved { paths: one_path(self.resolve_literal(t.as_str())), events: no_events() },
            ),
            PathExpr::FindInParentFolders(f) => {
                let name = match f {
                    Some(t) => t.clone(),
                    None => "terragrunt.hcl".to_owned(),
                };
                match find_in_parent_folders(facts, self.project_dir.as_str(), name.as_str()) {
                    Step::Need(q) => Step::Need(q),
                    Step::Done(p) => Step::Done(Resolved { paths: as_list(p), events: no_events() }),
                }
            },
            PathExpr::GetRepoRoot => match find_repo_root(facts, self.project_dir.as_str()) {
                Step::Need(q) => Step::Need(q),
                Step::Done(p) => Step::Done(Resolved { paths: as_list(p), events: no_events() }),
            },
            PathExpr::GetTerragruntDir => Step::Done(
                Resolved { paths: one_path(self.project_dir.clone()), events: no_events() },
            ),
            PathExpr::GetParentTerragruntDir => Step::Done(Resolved { paths: no_paths(), events: no_events() }),
            PathExpr::PathRelativeToInclude => Step::Done(Resolved { paths: no_paths(), events: no_events() }),
            PathExpr::PathRelativeFromInclude => Step::Done(Resolved { paths: no_paths(), events: no_events() }),
            PathExpr::Dirname(inner) => match self.resolve_all(facts, inner) {
                Step::Need(q) => Step::Need(q),
                Step::Done(r) => {
                    let ghost paths = texts(r.paths@);
                    let mut out = no_paths();
                    let mut i: usize = 0;
                    assert(paths.take(0) =~= Seq::empty());
                    while i < r.paths.len()
                        invariant
                            i <= r.paths@.len(),
                            paths == texts(r.paths@),
                            texts(out@) == parents_of(paths.take(i as int)),
                        decreases r.paths@.len() - i,
                    {
                        let ghost before = texts(out@);
                        assert(paths.take(i + 1).drop_last() =~= paths.take(i as int));
                        assert(paths.take(i + 1).last() == r.paths@[i as int]@);
                        match parent(r.paths[i].as_str()) {
                            Some(p) => {
                                let ghost pv = p@;
                                out.push(p);
                                assert(texts(out@) =~= before.push(pv));
                            },
                            None => {},
                        }
                        i += 1;
                    }
                    assert(paths.take(i as int) =~= paths);
                    Step::Done(Resolved { paths: out, events: r.events })
                },
            },
            PathExpr::Format { fmt, args } => {
                assert(path_expr@->args =~= path_views(args@));
                match self.resolve_each(facts, args) {
                    Step::Need(q) => Step::Need(q),
                    Step::Done((None, events)) => Step::Done(Resolved { paths: no_paths(), events }),
                    Step::Done((Some(found), events)) => {
                        let ghost all = texts(found@);
                        let mut out = fmt.clone();
                        let mut i: usize = 0;
                        assert(all.take(0) =~= Seq::empty());
                        while i < found.len()
                            invariant
                                i <= found@.len(),
                                all == texts(found@),
                                out@ == filled(fmt@, all.take(i as int)),
                            decreases found@.len() - i,
                        {
                            assert(all.take(i + 1).drop_last() =~= all.take(i as int));
                            assert(all.take(i + 1).last() == found@[i as int]@);
                            out = fill(out.as_str(), found[i].as_str());
                            i += 1;
                        }
                        assert(all.take(i as int) =~= all);
                        let whole = if is_absolute(out.as_str()) {
                            out
                        } else {
                            join(self.config_dir.as_str(), out.as_str())
                        };
                        Step::Done(Resolved { paths: one_path(normalize_path(whole.as_str())), events })
                    },
                }
            },
            PathExpr::Interpolation(parts) => {
                assert(path_expr@->Interpolation_0 =~= path_views(parts@));
                if parts.len() == 0 {
                    return Step::Done(Resolved { paths: no_paths(), events: no_events() });
                }
                match self.splice(facts, parts) {
                    Step::Need(q) => Step::Need(q),
                    Step::Done((None, events)) => Step::Done(Resolved { paths: no_paths(), events }),
                    Step::Done((Some(t), events)) => Step::Done(
                        Resolved { paths: one_path(normalize_path(t.as_str())), events },
                    ),
                }
            },
            PathExpr::Conditional { true_branch, false_branch } => {
                let a = match self.resolve_all(facts, true_branch) {
                    Step::Need(q) => {
                        return Step::Need(q);
                    },
                    Step::Done(a) => a,
                };
                let b = match self.resolve_all(facts, false_branch) {
                    Step::Need(q) => {
                        return Step::Need(q);
                    },
                    Step::Done(b) => b,
                };
                let ghost x = texts(a.paths@);
                let ghost y = texts(b.paths@);
                let mut paths = a.paths;
                let mut more = b.paths;
                paths.append(&mut more);
                assert(texts(paths@) =~= x + y);
                let mut events = a.events;
                add_events(&mut events, b.events);
                Step::Done(Resolved { paths, events })
            },
            PathExpr::ValuesRef(keys) => {
                let found = match &self.values {
                    Some(v) => lookup_values_string(v, keys),
                    None => None,
                };
                match found {
                    Some(t) => Step::Done(
                        Resolved { paths: one_path(self.resolve_literal(t.as_str())), events: no_events() },
                    ),
                    None => Step::Done(Resolved { paths: no_paths(), events: no_events() }),
                }
            },
            PathExpr::HclExpr(e) => match self.evaluate_hcl_to_string(facts, e) {
                Step::Need(q) => Step::Need(q),
                Step::Done((Some(t), events)) => Step::Done(
                    Resolved { paths: one_path(self.resolve_literal(t.as_str())), events },
                ),
                Step::Done((None, events)) => Step::Done(Resolved { paths: no_paths(), events }),
            },
            PathExpr::Unresolvable { func } => Step::Done(Resolved { paths: no_paths(), events: no_events() }),
        }
    }

    /// Resolves each expression to its first path, up to the first that has none.
    fn resolve_each(&self, facts: &Facts, items: &Vec<PathExpr>) -> (res: Step<(Option<Vec<String>>, Vec<Event>)>)
        ensures
            match res {
                Step::Done(r) => forall|w: World| #[trigger]
                    facts.agrees(w) ==> each_view(r) == first_paths(w, path_views(items@), self@),
                Step::Need(q) => !facts.knows(q@) && forall|w: World| #[trigger]
                facts.agrees(w) ==> firsts_ask(w, path_views(items@), self@, q@),
            },
        decreases items, 0int,
    {
        let ghost views = path_views(items@);
        let ghost c = self@;
        let mut out = no_paths();
        let mut events = no_events();
        let mut i: usize = 0;
        assert(views.take(0) =~= Seq::empty());
        while i < items.len()
            invariant
                i <= items@.len(),
                views == path_views(items@),
                c == self@,
                forall|w: World| #[trigger]
                    facts.agrees(w) ==> first_paths(w, views.take(i as int), c) == (
                        Some(texts(out@)),
                        event_views(events@),
                    ),
            decreases items@.len() - i,
        {
            let ghost now = views.take(i + 1);
            proof {
                assert(decreases_to!(items => items@[i as int]));
                assert(now.drop_last() =~= views.take(i as int));
                assert(now.last() == items@[i as int]@);
            }
            let ghost before = texts(out@);
            let (first, more) = match self.resolve(facts, &items[i]) {
                Step::Need(q) => {
                    proof {
                        assert forall|w: World| #[trigger] facts.agrees(w) implies firsts_ask(w, views, c, q@) by {
                            assert(firsts_ask(w, now, c, q@));
                            lemma_firsts_ask(w, views, c, i + 1, q@);
                        }
                    }
                    return Step::Need(q);
                },
                Step::Done(r) => r,
            };
            add_events(&mut events, more);
            match first {
                Some(t) => {
                    let ghost tv = t@;
                    out.push(t);
                    assert(texts(out@) =~= before.push(tv));
                },
                None => {
                    proof {
                        assert forall|w: World| #[trigger] facts.agrees(w) implies first_paths(w, views, c) == (
                            None::<Seq<Seq<char>>>,
                            event_views(events@),
                        ) by {
                            assert(first_paths(w, now, c).0 is None);
                            lemma_first_paths_stop(w, views, c, i + 1);
                        }
                    }
                    return Step::Done((None, events));
                },
            }
            i += 1;
        }
        assert(views.take(i as int) =~= views);
        Step::Done((Some(out), events))
    }

    /// Puts the texts of the parts of an interpolation together.
    fn splice(&self, facts: &Facts, items: &Vec<PathExpr>) -> (res: Step<(Option<String>, Vec<Event>)>)
        ensures
            match res {
                Step::Done(r) => forall|w: World| #[trigger]
                    facts.agrees(w) ==> (opt_text(r.0), event_views(r.1@)) == spliced(w, path_views(items@), self@),
                Step::Need(q) => !facts.knows(q@) && forall|w: World| #[trigger]
                facts.agrees(w) ==> splices_ask(w, path_views(items@), self@, q@),
            },
        decreases items, 0int,
    {
        let ghost views = path_views(items@);
        let ghost c = self@;
        let mut out = String::new();
        let mut events = no_events();
        let mut i: usize = 0;
        assert(views.take(0) =~= Seq::empty());
        assert(out@ =~= Seq::empty());
        while i < items.len()
            invariant
                i <= items@.len(),
                views == path_views(items@),
                c == self@,
                forall|w: World| #[trigger]
                    facts.agrees(w) ==> spliced(w, views.take(i as int), c) == (
                        Some(out@),
                        event_views(events@),
                    ),
            decreases items@.len() - i,
        {
            let ghost now = views.take(i + 1);
            proof {
                assert(decreases_to!(items => items@[i as int]));
                assert(now.drop_last() =~= views.take(i as int));
                assert(now.last() == items@[i as int]@);
            }
            let (piece, more) = match &items[i] {
                PathExpr::Literal(t) => (Some(t.clone()), no_events()),
                PathExpr::HclExpr(e) => match self.evaluate_hcl_to_string(facts, e) {
                    Step::Need(q) => {
                        proof {
                            assert forall|w: World| #[trigger] facts.agrees(w) implies splices_ask(w, views, c, q@) by {
                                assert(path_asks(w, now.last(), c, q@));
                            assert(splices_ask(w, now, c, q@));
                                lemma_splices_ask(w, views, c, i + 1, q@);
                            }
                        }
                        return Step::Need(q);
                    },
                    Step::Done(r) => r,
                },
                other => match self.resolve(facts, other) {
                    Step::Need(q) => {
                        proof {
                            assert forall|w: World| #[trigger] facts.agrees(w) implies splices_ask(w, views, c, q@) by {
                                assert(path_asks(w, now.last(), c, q@));
                            assert(splices_ask(w, now, c, q@));
                                lemma_splices_ask(w, views, c, i + 1, q@);
                            }
                        }
                        return Step::Need(q);
                    },
                    Step::Done(r) => r,
                },
            };
            add_events(&mut events, more);
            match piece {
                Some(t) => {
                    out.append(t.as_str());
                },
                None => {
                    proof {
                        assert forall|w: World| #[trigger] facts.agrees(w) implies spliced(w, views, c) == (
                            None::<Seq<char>>,
                            event_views(events@),
                        ) by {
                            assert(spliced(w, now, c).0 is None);
                            lemma_spliced_stop(w, views, c, i + 1);
                        }
                    }
                    return Step::Done((None, events));
                },
            }
            i += 1;
        }
        assert(views.take(i as int) =~= views);
        Step::Done((Some(out), events))
    }

    /// The repository root (the directory containing `.git`) of the project.
    pub fn repo_root(&self, facts: &Facts) -> (res: Step<Option<String>>)
        ensures
            match res {
                Step::Done(p) => forall|w: World| #[trigger]
                    facts.agrees(w) ==> opt_text(p) == repo_root_of(w, self@.project_dir),
                Step::Need(q) => !facts.knows(q@) && forall|w: World| #[trigger]
                facts.agrees(w) ==> repo_asks(w, self@.project_dir, q@),
            },
    {
        find_repo_root(facts, self.project_dir.as_str())
    }
}

spec fn each_view(r: (Option<Vec<String>>, Vec<Event>)) -> (Option<Seq<Seq<char>>>, Seq<EventView>) {
    (
        match r.0 {
            Some(v) => Some(texts(v@)),
            None => None,
        },
        event_views(r.1@),
    )
}

proof fn lemma_first_paths_stop(w: World, items: Seq<PathView>, c: ContextView, k: int)
    requires
        0 <= k <= items.len(),
        first_paths(w, items.take(k), c).0 is None,
    ensures
        first_paths(w, items, c) == first_paths(w, items.take(k), c),
    decreases items.len(),
{
    if k == items.len() {
        assert(items.take(k) =~= items);
    } else {
        assert(items.drop_last().take(k) =~= items.take(k));
        lemma_first_paths_stop(w, items.drop_last(), c, k);
    }
}

proof fn lemma_spliced_stop(w: World, items: Seq<PathView>, c: ContextView, k: int)
    requires
        0 <= k <= items.len(),
        spliced(w, items.take(k), c).0 is None,
    ensures
        spliced(w, items, c) == spliced(w, items.take(k), c),
    decreases items.len(),
{
    if k == items.len() {
        assert(items.take(k) =~= items);
    } else {
        assert(items.drop_last().take(k) =~= items.take(k));
        lemma_spliced_stop(w, items.drop_last(), c, k);
    }
}

// ------------------------------------------------------------------------- laws

/// Parts among which nothing is left to resolve: no `.`, and `..` at the front only.
pub open spec fn is_normal(parts: Seq<PartView>) -> bool {
    forall|i: int|
        0 <= i < parts.len() ==> !(#[trigger] parts[i] is CurDir) && (parts[i] is ParentDir ==> i == 0 || parts[i
            - 1] is ParentDir)
}

pub proof fn lemma_normal_parts(parts: Seq<PartView>)
    requires
        proper(parts),
    ensures
        proper(normal_parts(parts)),
        is_normal(normal_parts(parts)),
    decreases parts.len(),
{
    if parts.len() > 0 {
        let rest = parts.drop_last();
        let last = parts[parts.len() - 1];
        assert forall|i: int| 0 <= i < rest.len() implies #[trigger] rest[i] == parts[i] by {}
        lemma_normal_parts(rest);
        let before = normal_parts(rest);
        let now = normal_parts(parts);
        if last is RootDir || last is CurDir {
            assert(rest =~= Seq::empty());
            assert(before =~= Seq::empty());
        }
        assert forall|i: int| 0 <= i < now.len() implies (i < before.len() && #[trigger] now[i] == before[i]) || (i
            == before.len() && now[i] == last) by {}
    }
}

pub proof fn lemma_normal_stays(parts: Seq<PartView>)
    requires
        is_normal(parts),
    ensures
        normal_parts(parts) == parts,
    decreases parts.len(),
{
    if parts.len() > 0 {
        let rest = parts.drop_last();
        let last = parts[parts.len() - 1];
        assert forall|i: int| 0 <= i < rest.len() implies #[trigger] rest[i] == parts[i] by {}
        lemma_normal_stays(rest);
        assert(rest.push(last) =~= parts);
        if last is ParentDir && rest.len() > 0 {
            assert(rest.last() == parts[parts.len() - 2]);
        }
    } else {
        assert(normal_parts(parts) =~= parts);
    }
}

/// To normalize a path twice is to normalize it once, and what comes of it is written plainly.
pub proof fn law_normalized_stays(path: Seq<char>)
    ensures
        normalized(normalized(path)) == normalized(path),
        is_plain(normalized(path)),
{
    lemma_path_parts_proper(path);
    let parts = normal_parts(path_parts(path));
    lemma_normal_parts(path_parts(path));
    lemma_parts_of_text(parts);
    lemma_normal_stays(parts);
}

/// Normalizing never leads out of the root: an absolute path stays absolute.
pub proof fn law_normalized_stays_absolute(path: Seq<char>)
    requires
        has_root(path),
    ensures
        has_root(normalized(path)),
{
    lemma_path_parts_proper(path);
    let parts = path_parts(path);
    lemma_root_part(path);
    lemma_root_stays(parts);
    lemma_normal_parts(parts);
    lemma_parts_of_text(normal_parts(parts));
    lemma_root_part(normalized(path));
}

proof fn lemma_root_stays(parts: Seq<PartView>)
    requires
        parts.len() > 0,
        parts[0] is RootDir,
    ensures
        normal_parts(parts).len() > 0,
        normal_parts(parts)[0] is RootDir,
    decreases parts.len(),
{
    if parts.len() > 1 {
        lemma_root_stays(parts.drop_last());
    } else {
        assert(parts.drop_last() =~= Seq::empty());
        assert(normal_parts(parts.drop_last()) =~= Seq::empty());
    }
}

/// A path that is written from the root is the same whatever directory it is seen from.
pub proof fn law_absolute_from_anywhere(c: ContextView, d: ContextView, path: Seq<char>)
    requires
        has_root(path),
    ensures
        from_config_dir(c, path) == from_config_dir(d, path),
        from_config_dir(c, path) == normalized(path),
{
}

pub proof fn lemma_normal_then_names(x: Seq<PartView>, y: Seq<PartView>)
    requires
        forall|i: int| 0 <= i < y.len() ==> #[trigger] y[i] is Normal,
    ensures
        normal_parts(x + y) == normal_parts(x) + y,
    decreases y.len(),
{
    if y.len() == 0 {
        assert(x + y =~= x);
        assert(normal_parts(x) + y =~= normal_parts(x));
    } else {
        assert((x + y).drop_last() =~= x + y.drop_last());
        assert(y[y.len() - 1] is Normal);
        assert((x + y).last() == y[y.len() - 1]);
        lemma_normal_then_names(x, y.drop_last());
        assert(normal_parts(x + y) =~= normal_parts(x) + y);
    }
}

pub proof fn lemma_normal_then_ups(x: Seq<PartView>, k: nat)
    requires
        k <= x.len(),
        forall|i: int| 0 <= i < x.len() ==> #[trigger] x[i] is Normal || (i == 0 && x[i] is RootDir),
        k == x.len() && k > 0 ==> x[0] is Normal,
    ensures
        normal_parts(x + Seq::new(k, |i: int| PartView::ParentDir)) == x.take(x.len() - k),
    decreases k,
{
    let ups = Seq::new(k, |i: int| PartView::ParentDir);
    if k == 0 {
        assert(x + ups =~= x);
        lemma_normal_stays(x);
        assert(x.take(x.len() as int) =~= x);
    } else {
        let less = Seq::new((k - 1) as nat, |i: int| PartView::ParentDir);
        assert((x + ups).drop_last() =~= x + less);
        lemma_normal_then_ups(x, (k - 1) as nat);
        let before = x.take(x.len() - k + 1);
        assert(before.last() == x[x.len() - k]);
        assert(before.drop_last() =~= x.take(x.len() - k));
    }
}

/// Going up from a list of names to what it has in common with another, and down again, leads to
/// the other.
pub proof fn lemma_up_and_down(from: Seq<PartView>, to: Seq<PartView>, common: nat)
    requires
        common <= from.len(),
        1 <= common <= to.len(),
        from.take(common as int) == to.take(common as int),
        forall|i: int| 0 <= i < from.len() ==> #[trigger] from[i] is Normal || (i == 0 && from[i] is RootDir),
        forall|i: int| 1 <= i < to.len() ==> #[trigger] to[i] is Normal,
    ensures
        normal_parts(
            from + Seq::new((from.len() - common) as nat, |i: int| PartView::ParentDir) + to.skip(common as int),
        ) == to,
{
    let k = (from.len() - common) as nat;
    let ups = Seq::new(k, |i: int| PartView::ParentDir);
    lemma_normal_then_ups(from, k);
    let down = to.skip(common as int);
    assert forall|i: int| 0 <= i < down.len() implies #[trigger] down[i] is Normal by {
        assert(down[i] == to[i + common]);
    }
    lemma_normal_then_names(from + ups, down);
    assert(to.take(common as int) + down =~= to);
}

} // verus!
