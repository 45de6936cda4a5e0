//! Expands `terragrunt.stack.hcl` files into synthetic units.
//!
//! A terragrunt stack file declares `unit "name" { ... }` blocks that reference a shared module via
//! `source`. Terragrunt would generate concrete units under
//! `<stack_dir>/.terragrunt-stack/<unit.path>/terragrunt.hcl`.
//!
//! The shared module is not itself a unit: it is dropped from what was discovered. The units of
//! the stack appear in the output even when `.terragrunt-stack/` has not been generated.

use crate::hcl_eval::{evaluate_expression, evaluate_locals};
#[allow(unused_imports)]
use crate::hcl_eval::{lazily, lazy_asks, locals_ask, locals_of};
use crate::names::NameSet;
#[allow(unused_imports)]
use crate::names::with_name;
use crate::parser::{is_remote_path, PathExpr};
#[allow(unused_imports)]
use crate::parser::is_remote;
use crate::path::{components, join, parent, sorted_paths, PathPart};
#[allow(unused_imports)]
use crate::path::{joined, ordered_paths, parent_of, part_views, path_parts, path_text, PartView};
use crate::processor::{derive_project_name, find_real_path, process_project_by_plan, DependencyStyle, LoadPlan};
#[allow(unused_imports)]
use crate::processor::{error_text, project_asks, project_name, project_of, real_path, PlanView};
use crate::project::Project;
#[allow(unused_imports)]
use crate::project::{project_views, ProjectView};
use crate::resolver::{add_call_events, add_event, add_events, empty_object, no_events, Event, ResolveContext, ResolveOptions};
#[allow(unused_imports)]
use crate::resolver::{
    call_events, empty_object_view, event_views, opt_value, path_asks, resolved, scope_of, ContextView, EventView,
};
use crate::stack_file::{BlockKind, ParsedStack, StackUnit};
#[allow(unused_imports)]
use crate::stack_file::{unit_views, UnitView};
use crate::syntax::{copy_value, HclValue};
#[allow(unused_imports)]
use crate::syntax::{ContentsView, ValueView};
use crate::text::{clone_texts, concat, has_text, join as join_texts, same, starts_with, to_chars};
#[allow(unused_imports)]
use crate::text::{begins_with, join_with, opt_text, texts};
use crate::world::{Facts, Step};
#[allow(unused_imports)]
use crate::world::{QueryView, World};
use vstd::prelude::*;

verus! {

// --------------------------------------------------------------------- reports

/// Soft-failure counters collected while expanding stack files.
#[derive(Debug, Clone, Copy, PartialEq, Eq)]
pub struct EvalReport {
    /// `values = { ... }` expressions of stack units that failed to evaluate
    pub values_failures: usize,
    /// `source = ...` path expressions that could not be resolved
    pub source_path_failures: usize,
    /// Functions that would read files and were called during evaluation, once for each function
    /// and stack file
    pub file_io_failures: usize,
    /// Stack files that were not expanded because they are being expanded already
    pub cycle_skipped: usize,
    /// Stack blocks with a remote source
    pub remote_sources_skipped: usize,
    /// Stack blocks whose source holds no `terragrunt.stack.hcl`
    pub missing_child_stack: usize,
    /// Stack blocks that lie too deep
    pub recursion_depth_exceeded: usize,
}

impl Default for EvalReport {
    fn default() -> (res: Self)
        ensures
            res.sum() == 0,
    {
        EvalReport {
            values_failures: 0,
            source_path_failures: 0,
            file_io_failures: 0,
            cycle_skipped: 0,
            remote_sources_skipped: 0,
            missing_child_stack: 0,
            recursion_depth_exceeded: 0,
        }
    }
}

impl EvalReport {
    /// All failures together.
    pub open spec fn sum(self) -> nat {
        (self.values_failures + self.source_path_failures + self.file_io_failures + self.cycle_skipped
            + self.remote_sources_skipped + self.missing_child_stack + self.recursion_depth_exceeded) as nat
    }

    /// The number of all failures.
    pub fn total(&self) -> (res: usize)
        requires
            self.sum() <= usize::MAX,
        ensures
            res == self.sum(),
    {
        self.values_failures + self.source_path_failures + self.file_io_failures + self.cycle_skipped
            + self.remote_sources_skipped + self.missing_child_stack + self.recursion_depth_exceeded
    }

    /// Whether there was no failure.
    pub fn is_empty(&self) -> (res: bool)
        ensures
            res == (self.sum() == 0),
    {
        self.values_failures == 0 && self.source_path_failures == 0 && self.file_io_failures == 0 && self.cycle_skipped
            == 0 && self.remote_sources_skipped == 0 && self.missing_child_stack == 0 && self.recursion_depth_exceeded
            == 0
    }
}

/// How often an event happened.
pub open spec fn count_event(events: Seq<EventView>, e: EventView) -> nat
    decreases events.len(),
{
    if events.len() == 0 {
        0
    } else {
        count_event(events.drop_last(), e) + if events.last() == e {
            1nat
        } else {
            0
        }
    }
}

/// How many different calls of file functions there were.
pub open spec fn count_file_calls(events: Seq<EventView>) -> nat
    decreases events.len(),
{
    if events.len() == 0 {
        0
    } else {
        count_file_calls(events.drop_last()) + if events.last() is FileCall && !events.drop_last().contains(events.last()) {
            1nat
        } else {
            0
        }
    }
}

/// The report counts the events.
pub open spec fn reports(r: EvalReport, events: Seq<EventView>) -> bool {
    &&& r.values_failures == count_event(events, EventView::ValuesFailure)
    &&& r.source_path_failures == count_event(events, EventView::SourcePathFailure)
    &&& r.file_io_failures == count_file_calls(events)
    &&& r.cycle_skipped == count_event(events, EventView::CycleSkipped)
    &&& r.remote_sources_skipped == count_event(events, EventView::RemoteSkipped)
    &&& r.missing_child_stack == count_event(events, EventView::MissingChild)
    &&& r.recursion_depth_exceeded == count_event(events, EventView::DepthExceeded)
}

/// Two events are the same.
pub fn same_event(a: &Event, b: &Event) -> (res: bool)
    ensures
        res == (a@ == b@),
{
    match (a, b) {
        (Event::ValuesFailure, Event::ValuesFailure) => true,
        (Event::SourcePathFailure, Event::SourcePathFailure) => true,
        (Event::FileCall { function: f, stack_file: s }, Event::FileCall { function: g, stack_file: t }) => *f == *g && *s
            == *t,
        (Event::CycleSkipped, Event::CycleSkipped) => true,
        (Event::RemoteSkipped, Event::RemoteSkipped) => true,
        (Event::MissingChild, Event::MissingChild) => true,
        (Event::DepthExceeded, Event::DepthExceeded) => true,
        (Event::Warning(s), Event::Warning(t)) => *s == *t,
        _ => false,
    }
}

/// Counts the events.
pub fn summarize(events: &Vec<Event>) -> (res: EvalReport)
    ensures
        reports(res, event_views(events@)),
        res.sum() <= events@.len(),
{
    let ghost all = event_views(events@);
    let mut r = EvalReport {
        values_failures: 0,
        source_path_failures: 0,
        file_io_failures: 0,
        cycle_skipped: 0,
        remote_sources_skipped: 0,
        missing_child_stack: 0,
        recursion_depth_exceeded: 0,
    };
    let mut i: usize = 0;
    assert(all.take(0) =~= Seq::empty());
    while i < events.len()
        invariant
            i <= events@.len(),
            all == event_views(events@),
            reports(r, all.take(i as int)),
            r.sum() <= i,
        decreases events@.len() - i,
    {
        let ghost now = all.take(i + 1);
        proof {
            assert(now.drop_last() =~= all.take(i as int));
            assert(now.last() == events@[i as int]@);
        }
        match &events[i] {
            Event::ValuesFailure => {
                r.values_failures = r.values_failures + 1;
            },
            Event::SourcePathFailure => {
                r.source_path_failures = r.source_path_failures + 1;
            },
            Event::FileCall { function, stack_file } => {
                let mut seen = false;
                let mut j: usize = 0;
                while j < i && !seen
                    invariant
                        j <= i < events@.len(),
                        all == event_views(events@),
                        seen ==> all.take(i as int).contains(events@[i as int]@),
                        !seen ==> forall|k: int| 0 <= k < j ==> all[k] != events@[i as int]@,
                    decreases i - j, (if seen { 0int } else { 1 }),
                {
                    if same_event(&events[j], &events[i]) {
                        assert(all.take(i as int)[j as int] == events@[i as int]@);
                        seen = true;
                    } else {
                        assert(all[j as int] == events@[j as int]@);
                        j += 1;
                    }
                }
                proof {
                    if !seen && all.take(i as int).contains(events@[i as int]@) {
                        let k = choose|k: int| 0 <= k < i && all.take(i as int)[k] == events@[i as int]@;
                        assert(all[k] == events@[i as int]@);
                    }
                }
                if !seen {
                    r.file_io_failures = r.file_io_failures + 1;
                }
            },
            Event::CycleSkipped => {
                r.cycle_skipped = r.cycle_skipped + 1;
            },
            Event::RemoteSkipped => {
                r.remote_sources_skipped = r.remote_sources_skipped + 1;
            },
            Event::MissingChild => {
                r.missing_child_stack = r.missing_child_stack + 1;
            },
            Event::DepthExceeded => {
                r.recursion_depth_exceeded = r.recursion_depth_exceeded + 1;
            },
            Event::Warning(_) => {},
        }
        i += 1;
    }
    assert(all.take(i as int) =~= all);
    r
}

// ---------------------------------------------------- the stacks around a unit

/// The position of the last `.terragrunt-stack` among the parts.
pub open spec fn marker_at(parts: Seq<PartView>) -> Option<int>
    decreases parts.len(),
{
    if parts.len() == 0 {
        None
    } else if parts.last() == PartView::Normal(".terragrunt-stack"@) {
        Some(parts.len() - 1)
    } else {
        marker_at(parts.drop_last())
    }
}

/// The names among the parts.
pub open spec fn names_of(parts: Seq<PartView>) -> Seq<Seq<char>>
    decreases parts.len(),
{
    if parts.len() == 0 {
        Seq::empty()
    } else {
        match parts.last() {
            PartView::Normal(t) => names_of(parts.drop_last()).push(t),
            _ => names_of(parts.drop_last()),
        }
    }
}

/// The directory that holds the innermost `.terragrunt-stack` of a path, and what lies below it.
pub open spec fn nearest_stack(path: Seq<char>) -> Option<(Seq<char>, Seq<char>)> {
    let parts = path_parts(path);
    match marker_at(parts) {
        None => None,
        Some(i) => {
            let below = names_of(parts.skip(i + 1));
            if below.len() == 0 {
                None
            } else {
                Some((path_text(parts.take(i)), join_with(below, "/"@)))
            }
        },
    }
}

/// A unit that is declared at `path` covers what lies at `rel`.
pub open spec fn covers(path: Seq<char>, rel: Seq<char>) -> bool {
    rel == path || begins_with(rel, path + "/"@)
}

/// The unit that covers `rel` with the longest path; of several, the last.
pub open spec fn covering(units: Seq<UnitView>, rel: Seq<char>) -> Option<int>
    decreases units.len(),
{
    if units.len() == 0 {
        None
    } else {
        let before = covering(units.drop_last(), rel);
        if covers(units.last().path, rel) && (before is None || units[before->0].path.len() <= units.last().path.len()) {
            Some(units.len() - 1)
        } else {
            before
        }
    }
}

/// A stack file on the way to a unit, with the unit of it that leads there.
pub struct FrameView {
    pub stack_file: Seq<char>,
    pub body: ContentsView,
    pub unit: UnitView,
}

/// The message for a stack file that cannot be parsed.
pub open spec fn unparsed(stack_file: Seq<char>, message: Seq<char>) -> Seq<char> {
    "Warning: failed to parse stack file "@ + stack_file + ": "@ + message
}

/// The stack files around a directory, from the outside in, and what happened on the way.
pub open spec fn frames_around(w: World, dir: Seq<char>) -> (Seq<FrameView>, Seq<EventView>)
    decreases path_parts(dir).len(),
{
    match nearest_stack(dir) {
        None => (Seq::empty(), Seq::empty()),
        Some((stack_dir, rel)) => {
            let file = joined(stack_dir, "terragrunt.stack.hcl"@);
            match (w.stack)(file) {
                Err(m) => (Seq::empty(), seq![EventView::Warning(unparsed(file, m))]),
                Ok(parsed) => match covering(parsed.units, rel) {
                    None => (Seq::empty(), Seq::empty()),
                    Some(i) => if path_parts(stack_dir).len() < path_parts(dir).len() {
                        let (outside, events) = frames_around(w, stack_dir);
                        (outside.push(FrameView { stack_file: file, body: parsed.body, unit: parsed.units[i] }), events)
                    } else {
                        (Seq::empty(), Seq::empty())
                    },
                },
            }
        },
    }
}

/// What the expressions in a stack file are evaluated in.
pub open spec fn stack_context(
    stack_file: Seq<char>,
    dir: Seq<char>,
    opts: ResolveOptions,
    values: ValueView,
    locals: Option<ValueView>,
) -> ContextView {
    ContextView {
        config_dir: dir,
        project_dir: dir,
        values: Some(values),
        locals,
        parent_dir: Some(dir),
        options: opts,
        stack_file: Some(stack_file),
    }
}

/// The locals of a stack file, and the file functions that were called for them.
pub open spec fn stack_locals(
    w: World,
    stack_file: Seq<char>,
    dir: Seq<char>,
    opts: ResolveOptions,
    values: ValueView,
    body: ContentsView,
) -> (ValueView, Seq<EventView>) {
    let a = locals_of(w, body, scope_of(stack_context(stack_file, dir, opts, values, None)));
    (
        match a.result {
            Ok(v) => v,
            Err(_) => empty_object_view(),
        },
        call_events(a.file_calls, stack_file),
    )
}

/// The message for values that cannot be evaluated.
pub open spec fn unevaluated(path: Seq<char>, stack_file: Seq<char>, message: Seq<char>) -> Seq<char> {
    "Warning: could not evaluate values for unit '"@ + path + "' in "@ + stack_file + ": "@ + message
        + "; dependency edges skipped"@
}

/// The values of a unit, where it has any and they can be evaluated.
pub open spec fn unit_values(w: World, unit: UnitView, c: ContextView, stack_file: Seq<char>) -> (
    Option<ValueView>,
    Seq<EventView>,
) {
    match unit.values_expr {
        None => (None, Seq::empty()),
        Some(e) => {
            let a = lazily(w, e, scope_of(c), Seq::empty());
            let calls = call_events(a.file_calls, stack_file);
            match a.result {
                Ok(v) => (Some(v), calls),
                Err(m) => (None, calls.push(EventView::Warning(unevaluated(unit.path, stack_file, m)))),
            }
        },
    }
}

/// The values that come down through the frames; nothing where one of them has none.
pub open spec fn folded(w: World, frames: Seq<FrameView>, opts: ResolveOptions) -> (Option<ValueView>, Seq<EventView>)
    decreases frames.len(),
{
    if frames.len() == 0 {
        (Some(empty_object_view()), Seq::empty())
    } else {
        let (before, events) = folded(w, frames.drop_last(), opts);
        match before {
            None => (None, events),
            Some(outer) => {
                let f = frames.last();
                let dir = match parent_of(f.stack_file) {
                    Some(p) => p,
                    None => "."@,
                };
                let (locals, calls) = stack_locals(w, f.stack_file, dir, opts, outer, f.body);
                let (v, more) = unit_values(
                    w,
                    f.unit,
                    stack_context(f.stack_file, dir, opts, outer, Some(locals)),
                    f.stack_file,
                );
                (v, events + calls + more)
            },
        }
    }
}

/// The values that come down to a directory from the stack files around it.
pub open spec fn values_around(w: World, dir: Seq<char>, opts: ResolveOptions) -> (Option<ValueView>, Seq<EventView>) {
    let (frames, events) = frames_around(w, dir);
    let (v, more) = folded(w, frames, opts);
    (v, events + more)
}

// ------------------------------------------------------ what an expansion comes to

/// The values that are bound for a unit of a stack.
#[derive(Debug, PartialEq, Eq)]
pub struct StackBinding {
    pub values: HclValue,
    pub stack_file: String,
    pub parent_unit_path: String,
}

pub struct BindingView {
    pub values: ValueView,
    pub stack_file: Seq<char>,
    pub parent_unit_path: Seq<char>,
}

impl View for StackBinding {
    type V = BindingView;

    open spec fn view(&self) -> BindingView {
        BindingView {
            values: self.values@,
            stack_file: self.stack_file@,
            parent_unit_path: self.parent_unit_path@,
        }
    }
}

/// What has been expanded so far.
pub struct ExpandView {
    /// Shared modules, which are no units
    pub sources: Seq<Seq<char>>,
    /// The directories that units are generated in
    pub unit_dirs: Seq<Seq<char>>,
    /// Of those, the ones that a project was put out for
    pub leaves: Seq<Seq<char>>,
    pub projects: Seq<ProjectView>,
    pub bindings: Seq<(Seq<char>, BindingView)>,
    pub events: Seq<EventView>,
}

/// Nothing expanded.
pub open spec fn nothing_expanded() -> ExpandView {
    ExpandView {
        sources: Seq::empty(),
        unit_dirs: Seq::empty(),
        leaves: Seq::empty(),
        projects: Seq::empty(),
        bindings: Seq::empty(),
        events: Seq::empty(),
    }
}

/// The same, with more events.
pub open spec fn noted(st: ExpandView, events: Seq<EventView>) -> ExpandView {
    ExpandView { events: st.events + events, ..st }
}

/// The bindings, with `key` bound.
pub open spec fn with_binding(
    bindings: Seq<(Seq<char>, BindingView)>,
    key: Seq<char>,
    b: BindingView,
) -> Seq<(Seq<char>, BindingView)>
    decreases bindings.len(),
{
    if bindings.len() == 0 {
        seq![(key, b)]
    } else if bindings[0].0 == key {
        bindings.update(0, (key, b))
    } else {
        seq![bindings[0]] + with_binding(bindings.skip(1), key, b)
    }
}

/// A stack file that is being expanded.
pub struct SiteView {
    pub stack_file: Seq<char>,
    /// The directory under which its units are generated
    pub base: Seq<char>,
    /// What its expressions are evaluated in
    pub context: ContextView,
    /// What `values` stands for in it
    pub outer: ValueView,
    /// How deep it lies
    pub depth: nat,
    /// The stack files that are being expanded, this one included
    pub visited: Seq<Seq<char>>,
}

/// The directory that a unit is generated in.
pub open spec fn unit_dir_of(site: SiteView, unit: UnitView) -> Seq<char> {
    joined(joined(site.base, ".terragrunt-stack"@), unit.path)
}

/// The message for a source that cannot be resolved.
pub open spec fn unresolved(path: Seq<char>, stack_file: Seq<char>) -> Seq<char> {
    "Warning: could not resolve source for unit '"@ + path + "' in "@ + stack_file + "; skipping"@
}

/// The message for a stack with a remote source.
pub open spec fn remote_skipped(path: Seq<char>, stack_file: Seq<char>) -> Seq<char> {
    "Warning: source of stack '"@ + path + "' in "@ + stack_file + " is remote; skipping"@
}

/// The events of a unit with a remote source: a `stack` is counted and warned of.
pub open spec fn remote_events(unit: UnitView, stack_file: Seq<char>) -> Seq<EventView> {
    if unit.kind == BlockKind::Stack {
        seq![EventView::RemoteSkipped, EventView::Warning(remote_skipped(unit.path, stack_file))]
    } else {
        Seq::empty()
    }
}

/// The directory of the module that a unit is made from, and what happened on the way; nothing
/// where the source is remote or cannot be resolved.
pub open spec fn source_of(w: World, site: SiteView, unit: UnitView) -> (Option<Seq<char>>, Seq<EventView>) {
    if unit.source is Literal && is_remote(unit.source->Literal_0) {
        (None, remote_events(unit, site.stack_file))
    } else {
        let r = resolved(w, unit.source, site.context);
        if r.paths.len() == 0 {
            let warned = r.events.push(EventView::Warning(unresolved(unit.path, site.stack_file)));
            (
                None,
                if r.events.contains(EventView::SourcePathFailure) {
                    warned
                } else {
                    warned.push(EventView::SourcePathFailure)
                },
            )
        } else {
            let source = real_path(w, r.paths[0]);
            if is_remote(source) {
                (None, r.events + remote_events(unit, site.stack_file))
            } else {
                (Some(source), r.events)
            }
        }
    }
}

/// The values that are bound for a unit: in a stack file that was discovered, those that come down
/// through the stack files around it; in one that was reached from another, its own, or those of
/// the stack file where it has none.
pub open spec fn bound_values(w: World, site: SiteView, unit: UnitView) -> (Option<ValueView>, Seq<EventView>) {
    if site.depth == 0 {
        values_around(w, unit_dir_of(site, unit), site.context.options)
    } else {
        let (v, events) = unit_values(w, unit, site.context, site.stack_file);
        (
            match v {
                Some(x) => Some(x),
                None => Some(site.outer),
            },
            events,
        )
    }
}

/// What is known when a unit has found its place: its module is no unit, its directory is taken,
/// and its values are bound.
pub open spec fn placed(
    w: World,
    site: SiteView,
    unit: UnitView,
    source: Seq<char>,
    bound: Option<ValueView>,
    st: ExpandView,
) -> ExpandView {
    let target = real_path(w, unit_dir_of(site, unit));
    ExpandView {
        sources: with_name(st.sources, source),
        unit_dirs: with_name(st.unit_dirs, target),
        bindings: match bound {
            Some(values) => with_binding(
                st.bindings,
                target,
                BindingView { values, stack_file: site.stack_file, parent_unit_path: unit.path },
            ),
            None => st.bindings,
        },
        events: if bound is None && unit.values_expr is Some {
            st.events.push(EventView::ValuesFailure)
        } else {
            st.events
        },
        ..st
    }
}

/// The files of a stack and of a module that a unit of the stack depends on.
pub open spec fn stack_watch(stack_file: Seq<char>, source: Seq<char>) -> Seq<Seq<char>> {
    seq![stack_file, joined(source, "**/*.hcl"@), joined(source, "**/*.tf*"@)]
}

/// The project of a unit of which nothing is known but its module.
pub open spec fn minimal_project(unit_dir: Seq<char>, stack_file: Seq<char>, source: Seq<char>) -> ProjectView {
    ProjectView {
        name: project_name(unit_dir),
        dir: unit_dir,
        project_dependencies: Seq::empty(),
        watch_files: stack_watch(stack_file, source),
        has_terraform_source: true,
    }
}

/// The message for a unit that cannot be processed.
pub open spec fn unprocessed(unit_dir: Seq<char>, message: Seq<char>) -> Seq<char> {
    "Warning: failed to process generated unit "@ + unit_dir + ": "@ + message + "; using synthetic fallback"@
}

/// The project of a unit of a stack: from the configuration that was generated for it, or else from
/// that of its module, or else from nothing.
pub open spec fn synthetic_project(
    w: World,
    unit_dir: Seq<char>,
    source: Seq<char>,
    stack_file: Seq<char>,
    bound: Option<ValueView>,
) -> (ProjectView, Seq<EventView>) {
    let generated = (w.present)(joined(unit_dir, "terragrunt.hcl"@));
    if !generated && !(w.present)(joined(source, "terragrunt.hcl"@)) {
        (minimal_project(unit_dir, stack_file, source), Seq::empty())
    } else {
        let r = if generated {
            project_of(
                w,
                unit_dir,
                PlanView { project_dir: unit_dir, unit_dir: None, values: bound, style: DependencyStyle::Path },
            )
        } else {
            project_of(
                w,
                source,
                PlanView { project_dir: source, unit_dir: Some(unit_dir), values: bound, style: DependencyStyle::Path },
            )
        };
        match r {
            Ok(p) => (
                ProjectView {
                    name: project_name(unit_dir),
                    dir: unit_dir,
                    project_dependencies: p.project_dependencies,
                    watch_files: ordered_paths(p.watch_files + stack_watch(stack_file, source)),
                    has_terraform_source: true,
                },
                Seq::empty(),
            ),
            Err(e) => (
                minimal_project(unit_dir, stack_file, source),
                seq![EventView::Warning(unprocessed(unit_dir, error_text(e)))],
            ),
        }
    }
}

/// What is known when a unit has been put out as a project, unless one was put out for its
/// directory before.
pub open spec fn put_out(
    w: World,
    site: SiteView,
    unit: UnitView,
    source: Seq<char>,
    bound: Option<ValueView>,
    st: ExpandView,
) -> ExpandView {
    let unit_dir = unit_dir_of(site, unit);
    let target = real_path(w, unit_dir);
    if st.leaves.contains(target) {
        st
    } else {
        let (p, events) = synthetic_project(w, unit_dir, source, site.stack_file, bound);
        ExpandView {
            leaves: st.leaves.push(target),
            projects: st.projects.push(p),
            events: st.events + events,
            ..st
        }
    }
}

/// How much deeper stacks may be followed.
pub open spec fn room(opts: ResolveOptions, depth: nat) -> nat {
    if depth <= opts.max_recursion_depth {
        (opts.max_recursion_depth - depth) as nat
    } else {
        0
    }
}

/// What is known when a stack file has been expanded behind what was expanded before.
///
/// `inherited` are the values that the file is reached with, and `base` is the directory that its
/// units are generated under, where it is reached from another stack file.
pub open spec fn expanded(
    w: World,
    stack_file: Seq<char>,
    inherited: Option<ValueView>,
    base: Option<Seq<char>>,
    depth: nat,
    opts: ResolveOptions,
    visited: Seq<Seq<char>>,
    st: ExpandView,
) -> ExpandView
    decreases room(opts, depth), 3nat, 0nat,
{
    let target = real_path(w, stack_file);
    if visited.contains(target) {
        noted(st, seq![EventView::CycleSkipped])
    } else {
        match (w.stack)(stack_file) {
            Err(m) => noted(st, seq![EventView::Warning(unparsed(stack_file, m))]),
            Ok(parsed) => match parent_of(stack_file) {
                None => noted(
                    st,
                    seq![EventView::Warning("Warning: stack file has no parent directory: "@ + stack_file)],
                ),
                Some(dir) => {
                    let (around, events) = match inherited {
                        Some(v) => (Some(v), Seq::empty()),
                        None => values_around(w, dir, opts),
                    };
                    let outer = match around {
                        Some(v) => v,
                        None => empty_object_view(),
                    };
                    let (locals, calls) = stack_locals(w, stack_file, dir, opts, outer, parsed.body);
                    let site = SiteView {
                        stack_file,
                        base: match base {
                            Some(b) => b,
                            None => dir,
                        },
                        context: stack_context(stack_file, dir, opts, outer, Some(locals)),
                        outer,
                        depth,
                        visited: visited.push(target),
                    };
                    units_expanded(w, site, opts, parsed.units, noted(st, events + calls))
                },
            },
        }
    }
}

/// What is known when the units of a stack file have been expanded in turn.
pub open spec fn units_expanded(
    w: World,
    site: SiteView,
    opts: ResolveOptions,
    units: Seq<UnitView>,
    st: ExpandView,
) -> ExpandView
    decreases room(opts, site.depth), 2nat, units.len(),
{
    if units.len() == 0 {
        st
    } else {
        unit_expanded(w, site, opts, units.last(), units_expanded(w, site, opts, units.drop_last(), st))
    }
}

/// What is known when one unit of a stack file has been expanded: a `unit` is put out as a project,
/// and so is a `stack` that nothing was put out for when it was followed.
pub open spec fn unit_expanded(w: World, site: SiteView, opts: ResolveOptions, unit: UnitView, st: ExpandView) -> ExpandView
    decreases room(opts, site.depth), 1nat, 0nat,
{
    let (found, events) = source_of(w, site, unit);
    match found {
        None => noted(st, events),
        Some(source) => {
            let (bound, more) = bound_values(w, site, unit);
            let here = placed(w, site, unit, source, bound, noted(st, events + more));
            if unit.kind == BlockKind::Stack {
                let after = stack_followed(w, site, opts, unit, source, here);
                if after.projects.len() > here.projects.len() {
                    after
                } else {
                    put_out(w, site, unit, source, bound, after)
                }
            } else {
                put_out(w, site, unit, source, bound, here)
            }
        },
    }
}

/// What is known when a `stack` block has been followed into the stack file of its source, where
/// there is one, where it is not being expanded already, and where it does not lie too deep.
pub open spec fn stack_followed(
    w: World,
    site: SiteView,
    opts: ResolveOptions,
    unit: UnitView,
    source: Seq<char>,
    st: ExpandView,
) -> ExpandView
    decreases room(opts, site.depth), 0nat, 0nat,
{
    let child = joined(source, "terragrunt.stack.hcl"@);
    if !(w.present)(child) {
        noted(st, seq![EventView::MissingChild])
    } else if site.visited.contains(real_path(w, child)) {
        noted(st, seq![EventView::CycleSkipped])
    } else if site.depth + 1 > opts.max_recursion_depth {
        noted(st, seq![EventView::DepthExceeded])
    } else {
        let (own, events) = unit_values(w, unit, site.context, site.stack_file);
        let values = match own {
            Some(v) => v,
            None => site.outer,
        };
        expanded(
            w,
            real_path(w, child),
            Some(values),
            Some(unit_dir_of(site, unit)),
            site.depth + 1,
            opts,
            site.visited,
            noted(st, events),
        )
    }
}

/// What is known when the stack files have been expanded in turn.
pub open spec fn all_expanded(w: World, stack_files: Seq<Seq<char>>, opts: ResolveOptions) -> ExpandView
    decreases stack_files.len(),
{
    if stack_files.len() == 0 {
        nothing_expanded()
    } else {
        expanded(
            w,
            stack_files.last(),
            None,
            None,
            0,
            opts,
            Seq::empty(),
            all_expanded(w, stack_files.drop_last(), opts),
        )
    }
}

/// The unit directories that are neither a shared module nor generated by a stack.
pub open spec fn own_units(w: World, dirs: Seq<Seq<char>>, st: ExpandView) -> Seq<Seq<char>>
    decreases dirs.len(),
{
    if dirs.len() == 0 {
        Seq::empty()
    } else {
        let before = own_units(w, dirs.drop_last(), st);
        let target = real_path(w, dirs.last());
        if st.sources.contains(target) || st.unit_dirs.contains(target) {
            before
        } else {
            before.push(dirs.last())
        }
    }
}

// -------------------------------------------------------------- what is asked for

/// Collecting the stack files around a directory asks for `q`.
pub open spec fn frames_ask(w: World, dir: Seq<char>, q: QueryView) -> bool
    decreases path_parts(dir).len(),
{
    match nearest_stack(dir) {
        None => false,
        Some((stack_dir, rel)) => {
            let file = joined(stack_dir, "terragrunt.stack.hcl"@);
            q == QueryView::Stack(file) || match (w.stack)(file) {
                Err(_) => false,
                Ok(parsed) => covering(parsed.units, rel) is Some && path_parts(stack_dir).len() < path_parts(dir).len()
                    && frames_ask(w, stack_dir, q),
            }
        },
    }
}

/// Evaluating the locals of a stack file asks for `q`.
pub open spec fn stack_locals_ask(
    w: World,
    stack_file: Seq<char>,
    dir: Seq<char>,
    opts: ResolveOptions,
    values: ValueView,
    body: ContentsView,
    q: QueryView,
) -> bool {
    locals_ask(w, body, scope_of(stack_context(stack_file, dir, opts, values, None)), q)
}

/// Evaluating the values of a unit asks for `q`.
pub open spec fn values_ask(w: World, unit: UnitView, c: ContextView, q: QueryView) -> bool {
    match unit.values_expr {
        None => false,
        Some(e) => lazy_asks(w, e, scope_of(c), Seq::empty(), q),
    }
}

/// Folding the values of the frames asks for `q`.
pub open spec fn fold_asks(w: World, frames: Seq<FrameView>, opts: ResolveOptions, q: QueryView) -> bool
    decreases frames.len(),
{
    if frames.len() == 0 {
        false
    } else {
        fold_asks(w, frames.drop_last(), opts, q) || match folded(w, frames.drop_last(), opts).0 {
            None => false,
            Some(outer) => {
                let f = frames.last();
                let dir = match parent_of(f.stack_file) {
                    Some(p) => p,
                    None => "."@,
                };
                let locals = stack_locals(w, f.stack_file, dir, opts, outer, f.body).0;
                stack_locals_ask(w, f.stack_file, dir, opts, outer, f.body, q) || values_ask(
                    w,
                    f.unit,
                    stack_context(f.stack_file, dir, opts, outer, Some(locals)),
                    q,
                )
            },
        }
    }
}

/// Finding the values that come down to a directory asks for `q`.
pub open spec fn around_asks(w: World, dir: Seq<char>, opts: ResolveOptions, q: QueryView) -> bool {
    frames_ask(w, dir, q) || fold_asks(w, frames_around(w, dir).0, opts, q)
}

/// Finding the module of a unit asks for `q`.
pub open spec fn source_asks(w: World, site: SiteView, unit: UnitView, q: QueryView) -> bool {
    if unit.source is Literal && is_remote(unit.source->Literal_0) {
        false
    } else {
        let r = resolved(w, unit.source, site.context);
        path_asks(w, unit.source, site.context, q) || (r.paths.len() > 0 && q == QueryView::Canonical(r.paths[0]))
    }
}

/// Finding the values that are bound for a unit asks for `q`.
pub open spec fn bound_asks(w: World, site: SiteView, unit: UnitView, q: QueryView) -> bool {
    if site.depth == 0 {
        around_asks(w, unit_dir_of(site, unit), site.context.options, q)
    } else {
        values_ask(w, unit, site.context, q)
    }
}

/// Building the project of a unit asks for `q`.
pub open spec fn synthetic_asks(
    w: World,
    unit_dir: Seq<char>,
    source: Seq<char>,
    bound: Option<ValueView>,
    q: QueryView,
) -> bool {
    q == QueryView::Present(joined(unit_dir, "terragrunt.hcl"@)) || if (w.present)(joined(unit_dir, "terragrunt.hcl"@)) {
        project_asks(
            w,
            unit_dir,
            PlanView { project_dir: unit_dir, unit_dir: None, values: bound, style: DependencyStyle::Path },
            q,
        )
    } else {
        q == QueryView::Present(joined(source, "terragrunt.hcl"@)) || ((w.present)(joined(source, "terragrunt.hcl"@))
            && project_asks(
            w,
            source,
            PlanView { project_dir: source, unit_dir: Some(unit_dir), values: bound, style: DependencyStyle::Path },
            q,
        ))
    }
}

/// Putting a unit out asks for `q`.
pub open spec fn put_out_asks(
    w: World,
    site: SiteView,
    unit: UnitView,
    source: Seq<char>,
    bound: Option<ValueView>,
    st: ExpandView,
    q: QueryView,
) -> bool {
    let unit_dir = unit_dir_of(site, unit);
    q == QueryView::Canonical(unit_dir) || (!st.leaves.contains(real_path(w, unit_dir)) && synthetic_asks(
        w,
        unit_dir,
        source,
        bound,
        q,
    ))
}

/// Expanding a stack file asks for `q`.
pub open spec fn expand_asks(
    w: World,
    stack_file: Seq<char>,
    inherited: Option<ValueView>,
    base: Option<Seq<char>>,
    depth: nat,
    opts: ResolveOptions,
    visited: Seq<Seq<char>>,
    st: ExpandView,
    q: QueryView,
) -> bool
    decreases room(opts, depth), 3nat, 0nat,
{
    let target = real_path(w, stack_file);
    if q == QueryView::Canonical(stack_file) {
        true
    } else if visited.contains(target) {
        false
    } else if q == QueryView::Stack(stack_file) {
        true
    } else {
        match (w.stack)(stack_file) {
            Err(_) => false,
            Ok(parsed) => match parent_of(stack_file) {
                None => false,
                Some(dir) => {
                    let (around, events) = match inherited {
                        Some(v) => (Some(v), Seq::empty()),
                        None => values_around(w, dir, opts),
                    };
                    let outer = match around {
                        Some(v) => v,
                        None => empty_object_view(),
                    };
                    let (locals, calls) = stack_locals(w, stack_file, dir, opts, outer, parsed.body);
                    let site = SiteView {
                        stack_file,
                        base: match base {
                            Some(b) => b,
                            None => dir,
                        },
                        context: stack_context(stack_file, dir, opts, outer, Some(locals)),
                        outer,
                        depth,
                        visited: visited.push(target),
                    };
                    (inherited is None && around_asks(w, dir, opts, q)) || stack_locals_ask(
                        w,
                        stack_file,
                        dir,
                        opts,
                        outer,
                        parsed.body,
                        q,
                    ) || units_ask(w, site, opts, parsed.units, noted(st, events + calls), q)
                },
            },
        }
    }
}

/// Expanding the units of a stack file asks for `q`.
pub open spec fn units_ask(
    w: World,
    site: SiteView,
    opts: ResolveOptions,
    units: Seq<UnitView>,
    st: ExpandView,
    q: QueryView,
) -> bool
    decreases room(opts, site.depth), 2nat, units.len(),
{
    if units.len() == 0 {
        false
    } else {
        units_ask(w, site, opts, units.drop_last(), st, q) || unit_asks(
            w,
            site,
            opts,
            units.last(),
            units_expanded(w, site, opts, units.drop_last(), st),
            q,
        )
    }
}

/// Expanding a unit of a stack file asks for `q`.
pub open spec fn unit_asks(
    w: World,
    site: SiteView,
    opts: ResolveOptions,
    unit: UnitView,
    st: ExpandView,
    q: QueryView,
) -> bool
    decreases room(opts, site.depth), 1nat, 0nat,
{
    let (found, events) = source_of(w, site, unit);
    source_asks(w, site, unit, q) || match found {
        None => false,
        Some(source) => {
            let (bound, more) = bound_values(w, site, unit);
            let here = placed(w, site, unit, source, bound, noted(st, events + more));
            bound_asks(w, site, unit, q) || q == QueryView::Canonical(unit_dir_of(site, unit)) || if unit.kind
                == BlockKind::Stack {
                let after = stack_followed(w, site, opts, unit, source, here);
                child_asks(w, site, opts, unit, source, here, q) || (after.projects.len() <= here.projects.len()
                    && put_out_asks(w, site, unit, source, bound, after, q))
            } else {
                put_out_asks(w, site, unit, source, bound, here, q)
            }
        },
    }
}

/// Following a `stack` block asks for `q`.
pub open spec fn child_asks(
    w: World,
    site: SiteView,
    opts: ResolveOptions,
    unit: UnitView,
    source: Seq<char>,
    st: ExpandView,
    q: QueryView,
) -> bool
    decreases room(opts, site.depth), 0nat, 0nat,
{
    let child = joined(source, "terragrunt.stack.hcl"@);
    if q == QueryView::Present(child) {
        true
    } else if !(w.present)(child) {
        false
    } else if q == QueryView::Canonical(child) {
        true
    } else if site.visited.contains(real_path(w, child)) || site.depth + 1 > opts.max_recursion_depth {
        false
    } else {
        let (own, events) = unit_values(w, unit, site.context, site.stack_file);
        let values = match own {
            Some(v) => v,
            None => site.outer,
        };
        values_ask(w, unit, site.context, q) || expand_asks(
            w,
            real_path(w, child),
            Some(values),
            Some(unit_dir_of(site, unit)),
            site.depth + 1,
            opts,
            site.visited,
            noted(st, events),
            q,
        )
    }
}

/// Expanding the stack files asks for `q`.
pub open spec fn files_ask(w: World, stack_files: Seq<Seq<char>>, opts: ResolveOptions, q: QueryView) -> bool
    decreases stack_files.len(),
{
    if stack_files.len() == 0 {
        false
    } else {
        files_ask(w, stack_files.drop_last(), opts, q) || expand_asks(
            w,
            stack_files.last(),
            None,
            None,
            0,
            opts,
            Seq::empty(),
            all_expanded(w, stack_files.drop_last(), opts),
            q,
        )
    }
}

/// An expansion asks for `q`: the stack files ask for it, or it is where a unit leads.
pub open spec fn expansion_asks(
    w: World,
    unit_dirs: Seq<Seq<char>>,
    stack_files: Seq<Seq<char>>,
    opts: ResolveOptions,
    q: QueryView,
) -> bool {
    files_ask(w, stack_files, opts, q) || exists|i: int|
        0 <= i < unit_dirs.len() && q == QueryView::Canonical(#[trigger] unit_dirs[i])
}

proof fn lemma_fold_asks(w: World, frames: Seq<FrameView>, opts: ResolveOptions, k: int, q: QueryView)
    requires
        0 <= k <= frames.len(),
        fold_asks(w, frames.take(k), opts, q),
    ensures
        fold_asks(w, frames, opts, q),
    decreases frames.len(),
{
    if k == frames.len() {
        assert(frames.take(k) =~= frames);
    } else {
        assert(frames.drop_last().take(k) =~= frames.take(k));
        lemma_fold_asks(w, frames.drop_last(), opts, k, q);
    }
}

proof fn lemma_units_ask(
    w: World,
    site: SiteView,
    opts: ResolveOptions,
    units: Seq<UnitView>,
    st: ExpandView,
    k: int,
    q: QueryView,
)
    requires
        0 <= k <= units.len(),
        units_ask(w, site, opts, units.take(k), st, q),
    ensures
        units_ask(w, site, opts, units, st, q),
    decreases units.len(),
{
    if k == units.len() {
        assert(units.take(k) =~= units);
    } else {
        assert(units.drop_last().take(k) =~= units.take(k));
        lemma_units_ask(w, site, opts, units.drop_last(), st, k, q);
    }
}

proof fn lemma_files_ask(w: World, stack_files: Seq<Seq<char>>, opts: ResolveOptions, k: int, q: QueryView)
    requires
        0 <= k <= stack_files.len(),
        files_ask(w, stack_files.take(k), opts, q),
    ensures
        files_ask(w, stack_files, opts, q),
    decreases stack_files.len(),
{
    if k == stack_files.len() {
        assert(stack_files.take(k) =~= stack_files);
    } else {
        assert(stack_files.drop_last().take(k) =~= stack_files.take(k));
        lemma_files_ask(w, stack_files.drop_last(), opts, k, q);
    }
}

// ------------------------------------------------------------------- searching

proof fn lemma_marker_at(parts: Seq<PartView>)
    ensures
        match marker_at(parts) {
            Some(i) => 0 <= i < parts.len(),
            None => true,
        },
    decreases parts.len(),
{
    if parts.len() > 0 {
        lemma_marker_at(parts.drop_last());
    }
}

proof fn lemma_marker_found(parts: Seq<PartView>, i: int)
    requires
        0 <= i < parts.len(),
        parts[i] == PartView::Normal(".terragrunt-stack"@),
        forall|j: int| i < j < parts.len() ==> #[trigger] parts[j] != PartView::Normal(".terragrunt-stack"@),
    ensures
        marker_at(parts) == Some(i),
    decreases parts.len(),
{
    if i < parts.len() - 1 {
        assert(parts[parts.len() - 1] != PartView::Normal(".terragrunt-stack"@));
        let rest = parts.drop_last();
        assert forall|j: int| i < j < rest.len() implies #[trigger] rest[j] != PartView::Normal(".terragrunt-stack"@) by {
            assert(rest[j] == parts[j]);
        }
        lemma_marker_found(rest, i);
    }
}

proof fn lemma_marker_missing(parts: Seq<PartView>)
    requires
        forall|j: int| 0 <= j < parts.len() ==> #[trigger] parts[j] != PartView::Normal(".terragrunt-stack"@),
    ensures
        marker_at(parts) is None,
    decreases parts.len(),
{
    if parts.len() > 0 {
        assert(parts[parts.len() - 1] != PartView::Normal(".terragrunt-stack"@));
        let rest = parts.drop_last();
        assert forall|j: int| 0 <= j < rest.len() implies #[trigger] rest[j] != PartView::Normal(".terragrunt-stack"@) by {
            assert(rest[j] == parts[j]);
        }
        lemma_marker_missing(rest);
    }
}

/// The stack around a directory lies further up.
proof fn lemma_nearest_is_above(path: Seq<char>)
    ensures
        match nearest_stack(path) {
            Some((dir, rel)) => path_parts(dir).len() < path_parts(path).len(),
            None => true,
        },
{
    let parts = path_parts(path);
    lemma_marker_at(parts);
    if nearest_stack(path) is Some {
        let i = marker_at(parts)->0;
        crate::path::lemma_path_parts_proper(path);
        let front = parts.take(i);
        assert forall|j: int| 0 <= j < front.len() implies #[trigger] front[j] == parts[j] by {}
        crate::path::lemma_parts_of_text(front);
    }
}

fn is_marker(p: &PathPart) -> (res: bool)
    ensures
        res == (p@ == PartView::Normal(".terragrunt-stack"@)),
{
    match p {
        PathPart::Normal(t) => same(t.as_str(), ".terragrunt-stack"),
        _ => false,
    }
}

/// Locates the innermost `.terragrunt-stack/<rel>` in a path: the directory that holds the
/// `.terragrunt-stack/` folder, and what lies below the folder.
pub fn nearest_stack_ancestor(path: &str) -> (res: Option<(String, String)>)
    ensures
        match res {
            Some((dir, rel)) => nearest_stack(path@) == Some((dir@, rel@)),
            None => nearest_stack(path@) is None,
        },
{
    let parts = components(path);
    let ghost views = path_parts(path@);
    let mut end: usize = parts.len();
    while end > 0 && !is_marker(&parts[end - 1])
        invariant
            end <= parts@.len(),
            views == part_views(parts@),
            forall|j: int| end <= j < parts@.len() ==> #[trigger] views[j] != PartView::Normal(".terragrunt-stack"@),
        decreases end,
    {
        assert(views[end - 1] == parts@[end - 1]@);
        end -= 1;
    }
    if end == 0 {
        proof {
            lemma_marker_missing(views);
        }
        return None;
    }
    let marker: usize = end - 1;
    proof {
        assert(views[marker as int] == parts@[marker as int]@);
        lemma_marker_found(views, marker as int);
    }
    let ghost after = views.skip(marker + 1);
    let mut below: Vec<String> = Vec::new();
    let mut i: usize = end;
    assert(after.take(0) =~= Seq::empty());
    assert(texts(below@) =~= Seq::empty());
    while i < parts.len()
        invariant
            end <= i <= parts@.len(),
            end == marker + 1,
            views == part_views(parts@),
            after == views.skip(marker + 1),
            texts(below@) == names_of(after.take(i - end)),
        decreases parts@.len() - i,
    {
        let ghost before = texts(below@);
        let ghost now = after.take(i - end + 1);
        assert(now.drop_last() =~= after.take(i - end));
        assert(now.last() == parts@[i as int]@);
        match &parts[i] {
            PathPart::Normal(t) => {
                below.push(t.clone());
                assert(texts(below@) =~= before.push(t@));
            },
            _ => {},
        }
        i += 1;
    }
    assert(after.take(i - end) =~= after);
    assert(texts(below@).len() == below@.len());
    if below.len() == 0 {
        return None;
    }
    let mut front: Vec<PathPart> = Vec::new();
    let mut k: usize = 0;
    while k < marker
        invariant
            k <= marker < parts@.len(),
            front@.len() == k,
            forall|j: int| 0 <= j < k ==> (#[trigger] front@[j])@ == parts@[j]@,
        decreases marker - k,
    {
        let part = parts[k].clone();
        front.push(part);
        k += 1;
    }
    assert(part_views(front@) =~= views.take(marker as int));
    Some((crate::path::join_parts(&front), join_texts(&below, "/")))
}

fn unit_covers(path: &str, rel: &str) -> (res: bool)
    ensures
        res == covers(path@, rel@),
{
    if same(rel, path) {
        return true;
    }
    let prefix = concat(path, "/");
    starts_with(rel, prefix.as_str())
}

fn find_covering(units: &Vec<StackUnit>, rel: &str) -> (res: Option<usize>)
    ensures
        match res {
            Some(i) => i < units@.len() && covering(unit_views(units@), rel@) == Some(i as int),
            None => covering(unit_views(units@), rel@) is None,
        },
{
    let ghost views = unit_views(units@);
    let mut best: Option<usize> = None;
    let mut i: usize = 0;
    assert(views.take(0) =~= Seq::empty());
    while i < units.len()
        invariant
            i <= units@.len(),
            views == unit_views(units@),
            match best {
                Some(b) => b < i && covering(views.take(i as int), rel@) == Some(b as int),
                None => covering(views.take(i as int), rel@) is None,
            },
        decreases units@.len() - i,
    {
        let ghost now = views.take(i + 1);
        assert(now.drop_last() =~= views.take(i as int));
        assert(now.last() == units@[i as int]@);
        if unit_covers(units[i].path.as_str(), rel) {
            match best {
                None => {
                    best = Some(i);
                },
                Some(b) => {
                    assert(now[b as int] == units@[b as int]@);
                    let old_len: usize = to_chars(units[b].path.as_str()).len();
                    let new_len: usize = to_chars(units[i].path.as_str()).len();
                    if old_len <= new_len {
                        best = Some(i);
                    }
                },
            }
        }
        i += 1;
    }
    assert(views.take(i as int) =~= views);
    best
}

/// One frame in the chain of stack files that leads to a unit.
struct StackFrame<'a> {
    stack_file: String,
    parsed: &'a ParsedStack,
    unit_index: usize,
}

spec fn frame_view(f: StackFrame) -> FrameView {
    FrameView { stack_file: f.stack_file@, body: f.parsed.body@, unit: f.parsed.units@[f.unit_index as int]@ }
}

spec fn frame_views(frames: Seq<StackFrame>) -> Seq<FrameView> {
    frames.map_values(|f: StackFrame| frame_view(f))
}

fn join4(a: &str, b: &str, c: &str, d: &str) -> (res: String)
    ensures
        res@ == a@ + b@ + c@ + d@,
{
    let x = concat(a, b);
    let y = concat(x.as_str(), c);
    concat(y.as_str(), d)
}

/// Walks outward from a directory and collects every stack file whose declared unit covers it, from
/// the outside in.
fn collect_stack_frames<'a>(facts: &'a Facts, unit_dir: &str) -> (res: Step<(Vec<StackFrame<'a>>, Vec<Event>)>)
    ensures
        match res {
            Step::Done(r) => {
                &&& forall|i: int| 0 <= i < r.0@.len() ==> (#[trigger] r.0@[i]).unit_index < r.0@[i].parsed.units@.len()
                &&& forall|w: World| #[trigger]
                    facts.agrees(w) ==> (frame_views(r.0@), event_views(r.1@)) == frames_around(w, unit_dir@)
            },
            Step::Need(q) => !facts.knows(q@) && forall|w: World| #[trigger]
                facts.agrees(w) ==> frames_ask(w, unit_dir@, q@),
        },
    decreases path_parts(unit_dir@).len(),
{
    proof {
        lemma_nearest_is_above(unit_dir@);
    }
    let none: Vec<StackFrame<'a>> = Vec::new();
    assert(frame_views(none@) =~= Seq::empty());
    match nearest_stack_ancestor(unit_dir) {
        None => Step::Done((none, no_events())),
        Some((stack_dir, rel)) => {
            let file = join(stack_dir.as_str(), "terragrunt.stack.hcl");
            match facts.stack(file.as_str()) {
                Step::Need(q) => Step::Need(q),
                Step::Done(Err(m)) => {
                    let mut events = no_events();
                    let text = join4("Warning: failed to parse stack file ", file.as_str(), ": ", m.as_str());
                    add_event(&mut events, Event::Warning(text));
                    assert(event_views(events@) =~= seq![EventView::Warning(unparsed(file@, m@))]);
                    Step::Done((none, events))
                },
                Step::Done(Ok(parsed)) => match find_covering(&parsed.units, rel.as_str()) {
                    None => Step::Done((none, no_events())),
                    Some(i) => match collect_stack_frames(facts, stack_dir.as_str()) {
                        Step::Need(q) => Step::Need(q),
                        Step::Done((outside, events)) => {
                            let ghost before = frame_views(outside@);
                            let ghost old_frames = outside@;
                            let mut frames = outside;
                            let frame = StackFrame { stack_file: file, parsed, unit_index: i };
                            let ghost fv = frame_view(frame);
                            frames.push(frame);
                            proof {
                                assert(frame_views(frames@) =~= before.push(fv));
                                assert(fv.unit == unit_views(parsed.units@)[i as int]);
                                assert forall|k: int| 0 <= k < frames@.len() implies (#[trigger] frames@[k]).unit_index
                                    < frames@[k].parsed.units@.len() by {
                                    if k < old_frames.len() {
                                        assert(frames@[k] == old_frames[k]);
                                    }
                                }
                            }
                            Step::Done((frames, events))
                        },
                    },
                },
            }
        },
    }
}

// ------------------------------------------------------------------ evaluating

fn context_of(stack_file: &str, dir: &str, opts: &ResolveOptions, values: &HclValue, locals: Option<&HclValue>) -> (res:
    ResolveContext)
    ensures
        res@ == stack_context(
            stack_file@,
            dir@,
            *opts,
            values@,
            match locals {
                Some(v) => Some(v@),
                None => None,
            },
        ),
{
    ResolveContext {
        config_dir: dir.to_owned(),
        project_dir: dir.to_owned(),
        values: Some(copy_value(values)),
        locals: match locals {
            Some(v) => Some(copy_value(v)),
            None => None,
        },
        parent_dir: Some(dir.to_owned()),
        options: *opts,
        stack_file: Some(stack_file.to_owned()),
    }
}

fn evaluate_stack_locals(facts: &Facts, stack_file: &str, dir: &str, opts: &ResolveOptions, values: &HclValue, body:
    &crate::syntax::Contents) -> (res: Step<(HclValue, Vec<Event>)>)
    ensures
        match res {
            Step::Done(r) => forall|w: World| #[trigger]
                facts.agrees(w) ==> (r.0@, event_views(r.1@)) == stack_locals(
                    w,
                    stack_file@,
                    dir@,
                    *opts,
                    values@,
                    body@,
                ),
            Step::Need(q) => !facts.knows(q@) && forall|w: World| #[trigger]
                facts.agrees(w) ==> stack_locals_ask(w, stack_file@, dir@, *opts, values@, body@, q@),
        },
{
    let ctx = context_of(stack_file, dir, opts, values, None);
    let scope = ctx.scope();
    match evaluate_locals(facts, body, &scope) {
        Step::Need(q) => Step::Need(q),
        Step::Done(a) => {
            let mut events = no_events();
            add_call_events(&mut events, &a.file_calls, stack_file);
            assert(event_views(events@) =~= call_events(texts(a.file_calls@), stack_file@));
            let v = match a.result {
                Ok(v) => v,
                Err(_) => empty_object(),
            };
            Step::Done((v, events))
        },
    }
}

/// Evaluates the `values = { ... }` of a unit.
fn evaluate_unit_values(facts: &Facts, unit: &StackUnit, ctx: &ResolveContext, stack_file: &str) -> (res: Step<
    (Option<HclValue>, Vec<Event>),
>)
    ensures
        match res {
            Step::Done(r) => forall|w: World| #[trigger]
                facts.agrees(w) ==> (opt_value(r.0), event_views(r.1@)) == unit_values(w, unit@, ctx@, stack_file@),
            Step::Need(q) => !facts.knows(q@) && forall|w: World| #[trigger]
                facts.agrees(w) ==> values_ask(w, unit@, ctx@, q@),
        },
{
    match &unit.values_expr {
        None => Step::Done((None, no_events())),
        Some(e) => {
            let scope = ctx.scope();
            match evaluate_expression(facts, e, &scope) {
                Step::Need(q) => Step::Need(q),
                Step::Done(a) => {
                    let mut events = no_events();
                    add_call_events(&mut events, &a.file_calls, stack_file);
                    assert(event_views(events@) =~= call_events(texts(a.file_calls@), stack_file@));
                    match a.result {
                        Ok(v) => Step::Done((Some(v), events)),
                        Err(m) => {
                            let x = join4(
                                "Warning: could not evaluate values for unit '",
                                unit.path.as_str(),
                                "' in ",
                                stack_file,
                            );
                            let text = join4(x.as_str(), ": ", m.as_str(), "; dependency edges skipped");
                            add_event(&mut events, Event::Warning(text));
                            Step::Done((None, events))
                        },
                    }
                },
            }
        },
    }
}

/// Folds the values of every frame from the outside in.
fn fold_frames(facts: &Facts, frames: &Vec<StackFrame>, opts: &ResolveOptions) -> (res: Step<
    (Option<HclValue>, Vec<Event>),
>)
    requires
        forall|i: int| 0 <= i < frames@.len() ==> (#[trigger] frames@[i]).unit_index < frames@[i].parsed.units@.len(),
    ensures
        match res {
            Step::Done(r) => forall|w: World| #[trigger]
                facts.agrees(w) ==> (opt_value(r.0), event_views(r.1@)) == folded(w, frame_views(frames@), *opts),
            Step::Need(q) => !facts.knows(q@) && forall|w: World| #[trigger]
                facts.agrees(w) ==> fold_asks(w, frame_views(frames@), *opts, q@),
        },
{
    let ghost views = frame_views(frames@);
    let mut outer = empty_object();
    let mut events = no_events();
    let mut i: usize = 0;
    assert(views.take(0) =~= Seq::empty());
    while i < frames.len()
        invariant
            i <= frames@.len(),
            views == frame_views(frames@),
            forall|i: int|
                0 <= i < frames@.len() ==> (#[trigger] frames@[i]).unit_index < frames@[i].parsed.units@.len(),
            forall|w: World| #[trigger]
                facts.agrees(w) ==> folded(w, views.take(i as int), *opts) == (Some(outer@), event_views(events@)),
        decreases frames@.len() - i,
    {
        let ghost now = views.take(i + 1);
        proof {
            assert(now.drop_last() =~= views.take(i as int));
            assert(now.last() == frame_view(frames@[i as int]));
        }
        let frame = &frames[i];
        let dir = match parent(frame.stack_file.as_str()) {
            Some(p) => p,
            None => ".".to_owned(),
        };
        let (locals, calls) = match evaluate_stack_locals(
            facts,
            frame.stack_file.as_str(),
            dir.as_str(),
            opts,
            &outer,
            &frame.parsed.body,
        ) {
            Step::Need(q) => {
                proof {
                    assert forall|w: World| #[trigger] facts.agrees(w) implies fold_asks(w, views, *opts, q@) by {
                        assert(fold_asks(w, now, *opts, q@));
                        lemma_fold_asks(w, views, *opts, i + 1, q@);
                    }
                }
                return Step::Need(q);
            },
            Step::Done(r) => r,
        };
        let ctx = context_of(frame.stack_file.as_str(), dir.as_str(), opts, &outer, Some(&locals));
        let (values, more) = match evaluate_unit_values(
            facts,
            &frame.parsed.units[frame.unit_index],
            &ctx,
            frame.stack_file.as_str(),
        ) {
            Step::Need(q) => {
                proof {
                    assert forall|w: World| #[trigger] facts.agrees(w) implies fold_asks(w, views, *opts, q@) by {
                        assert(fold_asks(w, now, *opts, q@));
                        lemma_fold_asks(w, views, *opts, i + 1, q@);
                    }
                }
                return Step::Need(q);
            },
            Step::Done(r) => r,
        };
        add_events(&mut events, calls);
        add_events(&mut events, more);
        match values {
            Some(v) => {
                outer = v;
            },
            None => {
                proof {
                    assert forall|w: World| #[trigger] facts.agrees(w) implies folded(w, views, *opts) == (
                        None::<ValueView>,
                        event_views(events@),
                    ) by {
                        assert(folded(w, now, *opts).0 is None);
                        lemma_folded_stops(w, views, *opts, i + 1);
                    }
                }
                return Step::Done((None, events));
            },
        }
        i += 1;
    }
    assert(views.take(i as int) =~= views);
    Step::Done((Some(outer), events))
}

proof fn lemma_folded_stops(w: World, frames: Seq<FrameView>, opts: ResolveOptions, k: int)
    requires
        0 <= k <= frames.len(),
        folded(w, frames.take(k), opts).0 is None,
    ensures
        folded(w, frames, opts) == folded(w, frames.take(k), opts),
    decreases frames.len(),
{
    if k == frames.len() {
        assert(frames.take(k) =~= frames);
    } else {
        assert(frames.drop_last().take(k) =~= frames.take(k));
        lemma_folded_stops(w, frames.drop_last(), opts, k);
    }
}

fn find_values_around(facts: &Facts, dir: &str, opts: &ResolveOptions) -> (res: Step<(Option<HclValue>, Vec<Event>)>)
    ensures
        match res {
            Step::Done(r) => forall|w: World| #[trigger]
                facts.agrees(w) ==> (opt_value(r.0), event_views(r.1@)) == values_around(w, dir@, *opts),
            Step::Need(q) => !facts.knows(q@) && forall|w: World| #[trigger]
                facts.agrees(w) ==> around_asks(w, dir@, *opts, q@),
        },
{
    match collect_stack_frames(facts, dir) {
        Step::Need(q) => Step::Need(q),
        Step::Done((frames, events)) => match fold_frames(facts, &frames, opts) {
            Step::Need(q) => Step::Need(q),
            Step::Done((v, more)) => {
                let mut all = events;
                add_events(&mut all, more);
                Step::Done((v, all))
            },
        },
    }
}

// ------------------------------------------------------------------- expanding

/// What has been expanded so far.
struct ExpandState {
    sources: NameSet,
    unit_dirs: NameSet,
    leaves: NameSet,
    projects: Vec<Project>,
    bindings: Vec<(String, StackBinding)>,
    events: Vec<Event>,
}

/// The views of bindings.
pub open spec fn binding_views(bindings: Seq<(String, StackBinding)>) -> Seq<(Seq<char>, BindingView)> {
    bindings.map_values(|b: (String, StackBinding)| (b.0@, b.1@))
}

impl View for ExpandState {
    type V = ExpandView;

    closed spec fn view(&self) -> ExpandView {
        ExpandView {
            sources: self.sources@,
            unit_dirs: self.unit_dirs@,
            leaves: self.leaves@,
            projects: project_views(self.projects@),
            bindings: binding_views(self.bindings@),
            events: event_views(self.events@),
        }
    }
}

impl ExpandState {
    fn new() -> (res: ExpandState)
        ensures
            res@ == nothing_expanded(),
    {
        let res = ExpandState {
            sources: NameSet::new(),
            unit_dirs: NameSet::new(),
            leaves: NameSet::new(),
            projects: Vec::new(),
            bindings: Vec::new(),
            events: Vec::new(),
        };
        assert(project_views(res.projects@) =~= Seq::empty());
        assert(binding_views(res.bindings@) =~= Seq::empty());
        assert(event_views(res.events@) =~= Seq::empty());
        res
    }

    fn note(self, more: Vec<Event>) -> (res: ExpandState)
        ensures
            res@ == noted(self@, event_views(more@)),
    {
        let ExpandState { sources, unit_dirs, leaves, projects, bindings, events } = self;
        let mut all = events;
        add_events(&mut all, more);
        ExpandState { sources, unit_dirs, leaves, projects, bindings, events: all }
    }

    fn note_one(self, e: Event) -> (res: ExpandState)
        ensures
            res@ == noted(self@, seq![e@]),
    {
        let ghost ev = e@;
        let mut one = no_events();
        add_event(&mut one, e);
        assert(event_views(one@) =~= seq![ev]);
        self.note(one)
    }
}

/// A stack file that is being expanded.
struct Site {
    stack_file: String,
    base: String,
    context: ResolveContext,
    outer: HclValue,
    depth: usize,
    visited: Vec<String>,
}

spec fn site_view(s: Site) -> SiteView {
    SiteView {
        stack_file: s.stack_file@,
        base: s.base@,
        context: s.context@,
        outer: s.outer@,
        depth: s.depth as nat,
        visited: texts(s.visited@),
    }
}

proof fn lemma_with_binding_at(bindings: Seq<(Seq<char>, BindingView)>, k: int, key: Seq<char>, b: BindingView)
    requires
        0 <= k <= bindings.len(),
        forall|j: int| 0 <= j < k ==> (#[trigger] bindings[j]).0 != key,
        k < bindings.len() ==> bindings[k].0 == key,
    ensures
        with_binding(bindings, key, b) == (if k < bindings.len() {
            bindings.update(k, (key, b))
        } else {
            bindings.push((key, b))
        }),
    decreases bindings.len(),
{
    if bindings.len() == 0 {
        assert(bindings.push((key, b)) =~= seq![(key, b)]);
    } else if k > 0 {
        assert(bindings[0].0 != key);
        assert forall|j: int| 0 <= j < k - 1 implies (#[trigger] bindings.skip(1)[j]).0 != key by {
            assert(bindings.skip(1)[j] == bindings[j + 1]);
        }
        lemma_with_binding_at(bindings.skip(1), k - 1, key, b);
        if k < bindings.len() {
            assert(bindings.update(k, (key, b)) =~= seq![bindings[0]] + bindings.skip(1).update(k - 1, (key, b)));
        } else {
            assert(bindings.push((key, b)) =~= seq![bindings[0]] + bindings.skip(1).push((key, b)));
        }
    }
}

fn put_binding(bindings: &mut Vec<(String, StackBinding)>, key: &str, b: StackBinding)
    ensures
        binding_views(final(bindings)@) == with_binding(binding_views(old(bindings)@), key@, b@),
{
    let ghost views = binding_views(bindings@);
    let mut i: usize = 0;
    while i < bindings.len() && !same(bindings[i].0.as_str(), key)
        invariant
            i <= bindings@.len(),
            bindings@ == old(bindings)@,
            views == binding_views(bindings@),
            forall|j: int| 0 <= j < i ==> (#[trigger] views[j]).0 != key@,
        decreases bindings@.len() - i,
    {
        assert(views[i as int].0 == bindings@[i as int].0@);
        i += 1;
    }
    let ghost bv = b@;
    proof {
        if i < bindings@.len() {
            assert(views[i as int].0 == bindings@[i as int].0@);
        }
        lemma_with_binding_at(views, i as int, key@, bv);
    }
    if i < bindings.len() {
        bindings.set(i, (key.to_owned(), b));
        assert(binding_views(bindings@) =~= views.update(i as int, (key@, bv)));
    } else {
        bindings.push((key.to_owned(), b));
        assert(binding_views(bindings@) =~= views.push((key@, bv)));
    }
}

fn make_unit_dir(site: &Site, unit: &StackUnit) -> (res: String)
    ensures
        res@ == unit_dir_of(site_view(*site), unit@),
{
    let below = join(site.base.as_str(), ".terragrunt-stack");
    join(below.as_str(), unit.path.as_str())
}

fn is_stack(unit: &StackUnit) -> (res: bool)
    ensures
        res == (unit@.kind == BlockKind::Stack),
{
    match unit.kind {
        BlockKind::Stack => true,
        BlockKind::Unit => false,
    }
}

fn note_remote(events: &mut Vec<Event>, unit: &StackUnit, stack_file: &str)
    ensures
        event_views(final(events)@) == event_views(old(events)@) + remote_events(unit@, stack_file@),
{
    let ghost before = event_views(events@);
    if is_stack(unit) {
        add_event(events, Event::RemoteSkipped);
        let x = join4("Warning: source of stack '", unit.path.as_str(), "' in ", stack_file);
        add_event(events, Event::Warning(concat(x.as_str(), " is remote; skipping")));
        assert(event_views(events@) =~= before + remote_events(unit@, stack_file@));
    } else {
        assert(before + remote_events(unit@, stack_file@) =~= before);
    }
}

fn has_source_failure(events: &Vec<Event>) -> (res: bool)
    ensures
        res == event_views(events@).contains(EventView::SourcePathFailure),
{
    let ghost views = event_views(events@);
    let mut i: usize = 0;
    while i < events.len()
        invariant
            i <= events@.len(),
            views == event_views(events@),
            forall|j: int| 0 <= j < i ==> #[trigger] views[j] != EventView::SourcePathFailure,
        decreases events@.len() - i,
    {
        assert(views[i as int] == events@[i as int]@);
        match &events[i] {
            Event::SourcePathFailure => {
                return true;
            },
            _ => {},
        }
        i += 1;
    }
    false
}

/// Finds the module that a unit is made from.
fn find_source(facts: &Facts, site: &Site, unit: &StackUnit) -> (res: Step<(Option<String>, Vec<Event>)>)
    ensures
        match res {
            Step::Done(r) => forall|w: World| #[trigger]
                facts.agrees(w) ==> (opt_text(r.0), event_views(r.1@)) == source_of(w, site_view(*site), unit@),
            Step::Need(q) => !facts.knows(q@) && forall|w: World| #[trigger]
                facts.agrees(w) ==> source_asks(w, site_view(*site), unit@, q@),
        },
{
    // A literal is looked at as it is written: joined to a directory, `git::ssh://` would no longer
    // be seen to be remote.
    match &unit.source {
        PathExpr::Literal(t) => {
            if is_remote_path(t.as_str()) {
                let mut events = no_events();
                note_remote(&mut events, unit, site.stack_file.as_str());
                assert(event_views(events@) =~= remote_events(unit@, site.stack_file@));
                return Step::Done((None, events));
            }
        },
        _ => {},
    }
    let found = match site.context.resolve_all(facts, &unit.source) {
        Step::Need(q) => {
            return Step::Need(q);
        },
        Step::Done(r) => r,
    };
    let ghost paths = texts(found.paths@);
    let mut events = found.events;
    if found.paths.len() == 0 {
        let failed = has_source_failure(&events);
        let x = join4(
            "Warning: could not resolve source for unit '",
            unit.path.as_str(),
            "' in ",
            site.stack_file.as_str(),
        );
        let text = concat(x.as_str(), "; skipping");
        add_event(&mut events, Event::Warning(text));
        if !failed {
            add_event(&mut events, Event::SourcePathFailure);
        }
        return Step::Done((None, events));
    }
    assert(paths[0] == found.paths@[0]@);
    let source = match find_real_path(facts, found.paths[0].as_str()) {
        Step::Need(q) => {
            return Step::Need(q);
        },
        Step::Done(t) => t,
    };
    if is_remote_path(source.as_str()) {
        note_remote(&mut events, unit, site.stack_file.as_str());
        return Step::Done((None, events));
    }
    Step::Done((Some(source), events))
}

/// Finds the values that are bound for a unit.
fn find_bound_values(facts: &Facts, site: &Site, unit: &StackUnit, unit_dir: &str) -> (res: Step<
    (Option<HclValue>, Vec<Event>),
>)
    requires
        unit_dir@ == unit_dir_of(site_view(*site), unit@),
    ensures
        match res {
            Step::Done(r) => forall|w: World| #[trigger]
                facts.agrees(w) ==> (opt_value(r.0), event_views(r.1@)) == bound_values(w, site_view(*site), unit@),
            Step::Need(q) => !facts.knows(q@) && forall|w: World| #[trigger]
                facts.agrees(w) ==> bound_asks(w, site_view(*site), unit@, q@),
        },
{
    if inherited_values_for_unit_is_inline(site.depth) {
        return find_values_around(facts, unit_dir, &site.context.options);
    }
    match evaluate_unit_values(facts, unit, &site.context, site.stack_file.as_str()) {
        Step::Need(q) => Step::Need(q),
        Step::Done((Some(v), events)) => Step::Done((Some(v), events)),
        Step::Done((None, events)) => Step::Done((Some(copy_value(&site.outer)), events)),
    }
}

/// Whether values come down through the stack files around a unit: they do in stack files that were
/// discovered; others are reached with values.
fn inherited_values_for_unit_is_inline(depth: usize) -> (res: bool)
    ensures
        res == (depth == 0),
{
    depth == 0
}

fn watch_of_stack(stack_file: &str, source: &str) -> (res: Vec<String>)
    ensures
        texts(res@) == stack_watch(stack_file@, source@),
{
    let mut out: Vec<String> = Vec::new();
    out.push(stack_file.to_owned());
    out.push(join(source, "**/*.hcl"));
    out.push(join(source, "**/*.tf*"));
    assert(texts(out@) =~= stack_watch(stack_file@, source@));
    out
}

fn make_minimal_project(unit_dir: &str, stack_file: &str, source: &str) -> (res: Project)
    ensures
        res@ == minimal_project(unit_dir@, stack_file@, source@),
{
    let p = Project {
        name: derive_project_name(unit_dir),
        dir: unit_dir.to_owned(),
        project_dependencies: Vec::new(),
        watch_files: watch_of_stack(stack_file, source),
        has_terraform_source: true,
    };
    assert(texts(p.project_dependencies@) =~= Seq::empty());
    p
}

/// Builds the project of a unit of a stack.
///
/// Where the generated `terragrunt.hcl` is there, it is processed. Otherwise that of the module is:
/// the configuration is read there, and the dependencies are seen from the directory of the unit.
/// Without either, the project is made from the module and the stack file alone.
pub fn build_synthetic_project(
    facts: &Facts,
    unit_dir: &str,
    source_module: &str,
    stack_file: &str,
    bound_values: Option<HclValue>,
) -> (res: Step<(Project, Vec<Event>)>)
    ensures
        match res {
            Step::Done(r) => forall|w: World| #[trigger]
                facts.agrees(w) ==> (r.0@, event_views(r.1@)) == synthetic_project(
                    w,
                    unit_dir@,
                    source_module@,
                    stack_file@,
                    opt_value(bound_values),
                ),
            Step::Need(q) => !facts.knows(q@) && forall|w: World| #[trigger]
                facts.agrees(w) ==> synthetic_asks(w, unit_dir@, source_module@, opt_value(bound_values), q@),
        },
{
    let unit_hcl = join(unit_dir, "terragrunt.hcl");
    let generated = match facts.present(unit_hcl.as_str()) {
        Step::Need(q) => {
            return Step::Need(q);
        },
        Step::Done(b) => b,
    };
    let result = if generated {
        let plan = LoadPlan {
            project_dir: unit_dir.to_owned(),
            unit_dir: None,
            values: bound_values,
            style: DependencyStyle::Path,
        };
        match process_project_by_plan(facts, unit_dir, &plan) {
            Step::Need(q) => {
                return Step::Need(q);
            },
            Step::Done(r) => r,
        }
    } else {
        let module_hcl = join(source_module, "terragrunt.hcl");
        match facts.present(module_hcl.as_str()) {
            Step::Need(q) => {
                return Step::Need(q);
            },
            Step::Done(false) => {
                return Step::Done((make_minimal_project(unit_dir, stack_file, source_module), no_events()));
            },
            Step::Done(true) => {},
        }
        let plan = LoadPlan {
            project_dir: source_module.to_owned(),
            unit_dir: Some(unit_dir.to_owned()),
            values: bound_values,
            style: DependencyStyle::Path,
        };
        match process_project_by_plan(facts, source_module, &plan) {
            Step::Need(q) => {
                return Step::Need(q);
            },
            Step::Done(r) => r,
        }
    };
    match result {
        Ok(p) => {
            let ghost own = texts(p.watch_files@);
            let ghost extra = stack_watch(stack_file@, source_module@);
            let mut watch = p.watch_files;
            let mut more = watch_of_stack(stack_file, source_module);
            watch.append(&mut more);
            assert(texts(watch@) =~= own + extra);
            Step::Done(
                (
                    Project {
                        name: derive_project_name(unit_dir),
                        dir: unit_dir.to_owned(),
                        project_dependencies: p.project_dependencies,
                        watch_files: sorted_paths(&watch),
                        has_terraform_source: true,
                    },
                    no_events(),
                ),
            )
        },
        Err(e) => {
            let m = e.to_text();
            let x = join4("Warning: failed to process generated unit ", unit_dir, ": ", m.as_str());
            let text = concat(x.as_str(), "; using synthetic fallback");
            let mut events = no_events();
            add_event(&mut events, Event::Warning(text));
            assert(event_views(events@) =~= seq![EventView::Warning(unprocessed(unit_dir@, m@))]);
            Step::Done((make_minimal_project(unit_dir, stack_file, source_module), events))
        },
    }
}

fn place_unit(
    facts: &Facts,
    site: &Site,
    unit: &StackUnit,
    unit_dir: &str,
    source: &str,
    bound: &Option<HclValue>,
    st: ExpandState,
) -> (res: Step<ExpandState>)
    requires
        unit_dir@ == unit_dir_of(site_view(*site), unit@),
    ensures
        match res {
            Step::Done(r) => forall|w: World| #[trigger]
                facts.agrees(w) ==> r@ == placed(w, site_view(*site), unit@, source@, opt_value(*bound), st@),
            Step::Need(q) => !facts.knows(q@) && q@ == QueryView::Canonical(unit_dir@),
        },
{
    let target = match find_real_path(facts, unit_dir) {
        Step::Need(q) => {
            return Step::Need(q);
        },
        Step::Done(t) => t,
    };
    let ExpandState { sources, unit_dirs, leaves, projects, bindings, events } = st;
    let (sources, _s) = sources.insert(source);
    let (unit_dirs, _u) = unit_dirs.insert(target.as_str());
    let mut bindings = bindings;
    let mut events = events;
    match bound {
        Some(v) => {
            put_binding(
                &mut bindings,
                target.as_str(),
                StackBinding {
                    values: copy_value(v),
                    stack_file: site.stack_file.clone(),
                    parent_unit_path: unit.path.clone(),
                },
            );
        },
        None => {
            if unit.values_expr.is_some() {
                add_event(&mut events, Event::ValuesFailure);
            }
        },
    }
    Step::Done(ExpandState { sources, unit_dirs, leaves, projects, bindings, events })
}

fn put_out_unit(
    facts: &Facts,
    site: &Site,
    unit: &StackUnit,
    unit_dir: &str,
    source: &str,
    bound: Option<HclValue>,
    st: ExpandState,
) -> (res: Step<ExpandState>)
    requires
        unit_dir@ == unit_dir_of(site_view(*site), unit@),
    ensures
        match res {
            Step::Done(r) => forall|w: World| #[trigger]
                facts.agrees(w) ==> r@ == put_out(w, site_view(*site), unit@, source@, opt_value(bound), st@),
            Step::Need(q) => !facts.knows(q@) && forall|w: World| #[trigger]
                facts.agrees(w) ==> put_out_asks(
                w,
                site_view(*site),
                unit@,
                source@,
                opt_value(bound),
                st@,
                q@,
            ),
        },
{
    let target = match find_real_path(facts, unit_dir) {
        Step::Need(q) => {
            return Step::Need(q);
        },
        Step::Done(t) => t,
    };
    if st.leaves.contains(target.as_str()) {
        return Step::Done(st);
    }
    let (project, more) = match build_synthetic_project(facts, unit_dir, source, site.stack_file.as_str(), bound) {
        Step::Need(q) => {
            return Step::Need(q);
        },
        Step::Done(r) => r,
    };
    let ExpandState { sources, unit_dirs, leaves, projects, bindings, events } = st;
    let (leaves, _l) = leaves.insert(target.as_str());
    let mut projects = projects;
    let mut events = events;
    let ghost before = project_views(projects@);
    let ghost pv = project@;
    projects.push(project);
    assert(project_views(projects@) =~= before.push(pv));
    add_events(&mut events, more);
    Step::Done(ExpandState { sources, unit_dirs, leaves, projects, bindings, events })
}

/// Expands a single `terragrunt.stack.hcl` file into synthetic projects.
///
/// Without `inherited` values, they come down through the stack files around it.
fn expand_stack_file(
    facts: &Facts,
    stack_file: &str,
    inherited: Option<HclValue>,
    base: Option<String>,
    depth: usize,
    opts: &ResolveOptions,
    visited: &Vec<String>,
    st: ExpandState,
) -> (res: Step<ExpandState>)
    ensures
        match res {
            Step::Done(r) => forall|w: World| #[trigger]
                facts.agrees(w) ==> r@ == expanded(
                    w,
                    stack_file@,
                    opt_value(inherited),
                    opt_text(base),
                    depth as nat,
                    *opts,
                    texts(visited@),
                    st@,
                ),
            Step::Need(q) => !facts.knows(q@) && forall|w: World| #[trigger]
                facts.agrees(w) ==> expand_asks(
                w,
                stack_file@,
                opt_value(inherited),
                opt_text(base),
                depth as nat,
                *opts,
                texts(visited@),
                st@,
                q@,
            ),
        },
    decreases room(*opts, depth as nat), 3nat,
{
    let target = match find_real_path(facts, stack_file) {
        Step::Need(q) => {
            return Step::Need(q);
        },
        Step::Done(t) => t,
    };
    if has_text(visited, target.as_str()) {
        return Step::Done(st.note_one(Event::CycleSkipped));
    }
    let parsed = match facts.stack(stack_file) {
        Step::Need(q) => {
            return Step::Need(q);
        },
        Step::Done(Err(m)) => {
            let text = join4("Warning: failed to parse stack file ", stack_file, ": ", m.as_str());
            return Step::Done(st.note_one(Event::Warning(text)));
        },
        Step::Done(Ok(p)) => p,
    };
    let dir = match parent(stack_file) {
        Some(p) => p,
        None => {
            let text = concat("Warning: stack file has no parent directory: ", stack_file);
            return Step::Done(st.note_one(Event::Warning(text)));
        },
    };
    let (around, mut events) = match inherited {
        Some(v) => (Some(v), no_events()),
        None => match find_values_around(facts, dir.as_str(), opts) {
            Step::Need(q) => {
                return Step::Need(q);
            },
            Step::Done(r) => r,
        },
    };
    let outer = match around {
        Some(v) => v,
        None => empty_object(),
    };
    let (locals, calls) = match evaluate_stack_locals(facts, stack_file, dir.as_str(), opts, &outer, &parsed.body) {
        Step::Need(q) => {
            return Step::Need(q);
        },
        Step::Done(r) => r,
    };
    add_events(&mut events, calls);
    let mut now_visited = clone_texts(visited);
    let ghost tv = target@;
    now_visited.push(target);
    assert(texts(now_visited@) =~= texts(visited@).push(tv));
    let site = Site {
        stack_file: stack_file.to_owned(),
        base: match base {
            Some(b) => b,
            None => dir.clone(),
        },
        context: context_of(stack_file, dir.as_str(), opts, &outer, Some(&locals)),
        outer,
        depth,
        visited: now_visited,
    };
    let st = st.note(events);
    expand_units(facts, &site, opts, &parsed.units, st)
}

fn expand_units(facts: &Facts, site: &Site, opts: &ResolveOptions, units: &Vec<StackUnit>, st: ExpandState) -> (res: Step<
    ExpandState,
>)
    ensures
        match res {
            Step::Done(r) => forall|w: World| #[trigger]
                facts.agrees(w) ==> r@ == units_expanded(w, site_view(*site), *opts, unit_views(units@), st@),
            Step::Need(q) => !facts.knows(q@) && forall|w: World| #[trigger]
                facts.agrees(w) ==> units_ask(w, site_view(*site), *opts, unit_views(units@), st@, q@),
        },
    decreases room(*opts, site.depth as nat), 2nat,
{
    let ghost views = unit_views(units@);
    let ghost sv = site_view(*site);
    let ghost start = st@;
    let mut now = st;
    let mut i: usize = 0;
    assert(views.take(0) =~= Seq::empty());
    while i < units.len()
        invariant
            i <= units@.len(),
            views == unit_views(units@),
            sv == site_view(*site),
            start == st@,
            forall|w: World| #[trigger]
                facts.agrees(w) ==> now@ == units_expanded(w, sv, *opts, views.take(i as int), start),
        decreases units@.len() - i,
    {
        proof {
            assert(views.take(i + 1).drop_last() =~= views.take(i as int));
            assert(views.take(i + 1).last() == units@[i as int]@);
        }
        match expand_unit(facts, site, opts, &units[i], now) {
            Step::Need(q) => {
                proof {
                    assert forall|w: World| #[trigger] facts.agrees(w) implies units_ask(w, sv, *opts, views, start, q@) by {
                        assert(units_ask(w, sv, *opts, views.take(i + 1), start, q@));
                        lemma_units_ask(w, sv, *opts, views, start, i + 1, q@);
                    }
                }
                return Step::Need(q);
            },
            Step::Done(after) => {
                now = after;
            },
        }
        i += 1;
    }
    assert(views.take(i as int) =~= views);
    Step::Done(now)
}

fn expand_unit(facts: &Facts, site: &Site, opts: &ResolveOptions, unit: &StackUnit, st: ExpandState) -> (res: Step<
    ExpandState,
>)
    ensures
        match res {
            Step::Done(r) => forall|w: World| #[trigger]
                facts.agrees(w) ==> r@ == unit_expanded(w, site_view(*site), *opts, unit@, st@),
            Step::Need(q) => !facts.knows(q@) && forall|w: World| #[trigger]
                facts.agrees(w) ==> unit_asks(w, site_view(*site), *opts, unit@, st@, q@),
        },
    decreases room(*opts, site.depth as nat), 1nat,
{
    let (found, mut events) = match find_source(facts, site, unit) {
        Step::Need(q) => {
            return Step::Need(q);
        },
        Step::Done(r) => r,
    };
    let source = match found {
        None => {
            return Step::Done(st.note(events));
        },
        Some(t) => t,
    };
    let unit_dir = make_unit_dir(site, unit);
    let (bound, more) = match find_bound_values(facts, site, unit, unit_dir.as_str()) {
        Step::Need(q) => {
            return Step::Need(q);
        },
        Step::Done(r) => r,
    };
    add_events(&mut events, more);
    let st = st.note(events);
    let here = match place_unit(facts, site, unit, unit_dir.as_str(), source.as_str(), &bound, st) {
        Step::Need(q) => {
            return Step::Need(q);
        },
        Step::Done(s) => s,
    };
    let mut last = here;
    if is_stack(unit) {
        let count: usize = last.projects.len();
        let after = match try_recurse_into_child_stack(facts, site, opts, unit, unit_dir.as_str(), source.as_str(), last) {
            Step::Need(q) => {
                return Step::Need(q);
            },
            Step::Done(s) => s,
        };
        if after.projects.len() > count {
            return Step::Done(after);
        }
        last = after;
    }
    put_out_unit(facts, site, unit, unit_dir.as_str(), source.as_str(), bound, last)
}

fn try_recurse_into_child_stack(
    facts: &Facts,
    site: &Site,
    opts: &ResolveOptions,
    unit: &StackUnit,
    unit_dir: &str,
    source: &str,
    st: ExpandState,
) -> (res: Step<ExpandState>)
    requires
        unit_dir@ == unit_dir_of(site_view(*site), unit@),
    ensures
        match res {
            Step::Done(r) => forall|w: World| #[trigger]
                facts.agrees(w) ==> r@ == stack_followed(w, site_view(*site), *opts, unit@, source@, st@),
            Step::Need(q) => !facts.knows(q@) && forall|w: World| #[trigger]
                facts.agrees(w) ==> child_asks(w, site_view(*site), *opts, unit@, source@, st@, q@),
        },
    decreases room(*opts, site.depth as nat), 0nat,
{
    let child = join(source, "terragrunt.stack.hcl");
    match facts.present(child.as_str()) {
        Step::Need(q) => {
            return Step::Need(q);
        },
        Step::Done(false) => {
            return Step::Done(st.note_one(Event::MissingChild));
        },
        Step::Done(true) => {},
    }
    let target = match find_real_path(facts, child.as_str()) {
        Step::Need(q) => {
            return Step::Need(q);
        },
        Step::Done(t) => t,
    };
    if has_text(&site.visited, target.as_str()) {
        return Step::Done(st.note_one(Event::CycleSkipped));
    }
    if site.depth >= opts.max_recursion_depth {
        return Step::Done(st.note_one(Event::DepthExceeded));
    }
    let (own, events) = match evaluate_unit_values(facts, unit, &site.context, site.stack_file.as_str()) {
        Step::Need(q) => {
            return Step::Need(q);
        },
        Step::Done(r) => r,
    };
    let values = match own {
        Some(v) => v,
        None => copy_value(&site.outer),
    };
    let st = st.note(events);
    expand_stack_file(
        facts,
        target.as_str(),
        Some(values),
        Some(unit_dir.to_owned()),
        site.depth + 1,
        opts,
        &site.visited,
        st,
    )
}

/// Result of expanding all stack files.
#[derive(Debug, PartialEq, Eq)]
pub struct ExpandedDiscovery {
    /// Real unit directories, without shared modules and without those that a stack generates
    pub unit_dirs: Vec<String>,
    /// Synthetic projects of the units of stacks
    pub synthetic_projects: Vec<Project>,
    /// Soft-failure counters
    pub eval_report: EvalReport,
    /// The values that are bound for the units of stacks, by their directories
    pub stack_bindings: Vec<(String, StackBinding)>,
    /// What happened on the way
    pub events: Vec<Event>,
}

/// The result is that of an expansion.
pub open spec fn is_expansion(
    w: World,
    unit_dirs: Seq<Seq<char>>,
    stack_files: Seq<Seq<char>>,
    opts: ResolveOptions,
    res: ExpandedDiscovery,
) -> bool {
    let st = all_expanded(w, stack_files, opts);
    &&& texts(res.unit_dirs@) == own_units(w, unit_dirs, st)
    &&& project_views(res.synthetic_projects@) == st.projects
    &&& binding_views(res.stack_bindings@) == st.bindings
    &&& event_views(res.events@) == st.events
    &&& reports(res.eval_report, st.events)
}

/// Expands stack files into synthetic projects and drops shared modules from the units.
pub fn expand(facts: &Facts, unit_dirs: &Vec<String>, stack_files: &Vec<String>) -> (res: Step<ExpandedDiscovery>)
    ensures
        match res {
            Step::Done(r) => forall|w: World| #[trigger]
                facts.agrees(w) ==> is_expansion(
                    w,
                    texts(unit_dirs@),
                    texts(stack_files@),
                    ResolveOptions { strict: false, max_recursion_depth: 32 },
                    r,
                ),
            Step::Need(q) => !facts.knows(q@) && forall|w: World| #[trigger]
                facts.agrees(w) ==> expansion_asks(
                w,
                texts(unit_dirs@),
                texts(stack_files@),
                ResolveOptions { strict: false, max_recursion_depth: 32 },
                q@,
            ),
        },
{
    expand_with_options(facts, unit_dirs, stack_files, ResolveOptions { strict: false, max_recursion_depth: 32 })
}

/// Like [`expand`], with options.
pub fn expand_with_options(facts: &Facts, unit_dirs: &Vec<String>, stack_files: &Vec<String>, opts: ResolveOptions) -> (res:
    Step<ExpandedDiscovery>)
    ensures
        match res {
            Step::Done(r) => forall|w: World| #[trigger]
                facts.agrees(w) ==> is_expansion(w, texts(unit_dirs@), texts(stack_files@), opts, r),
            Step::Need(q) => !facts.knows(q@) && forall|w: World| #[trigger]
                facts.agrees(w) ==> expansion_asks(w, texts(unit_dirs@), texts(stack_files@), opts, q@),
        },
{
    let ghost files = texts(stack_files@);
    let ghost dirs = texts(unit_dirs@);
    let none: Vec<String> = Vec::new();
    assert(texts(none@) =~= Seq::empty());
    let mut st = ExpandState::new();
    let mut i: usize = 0;
    assert(files.take(0) =~= Seq::empty());
    while i < stack_files.len()
        invariant
            i <= stack_files@.len(),
            files == texts(stack_files@),
            texts(none@) == Seq::<Seq<char>>::empty(),
            forall|w: World| #[trigger] facts.agrees(w) ==> st@ == all_expanded(w, files.take(i as int), opts),
        decreases stack_files@.len() - i,
    {
        proof {
            assert(files.take(i + 1).drop_last() =~= files.take(i as int));
            assert(files.take(i + 1).last() == stack_files@[i as int]@);
        }
        match expand_stack_file(facts, stack_files[i].as_str(), None, None, 0, &opts, &none, st) {
            Step::Need(q) => {
                proof {
                    assert forall|w: World| #[trigger] facts.agrees(w) implies files_ask(w, files, opts, q@) by {
                        assert(files_ask(w, files.take(i + 1), opts, q@));
                        lemma_files_ask(w, files, opts, i + 1, q@);
                    }
                }
                return Step::Need(q);
            },
            Step::Done(after) => {
                st = after;
            },
        }
        i += 1;
    }
    assert(files.take(i as int) =~= files);
    let mut kept: Vec<String> = Vec::new();
    let mut k: usize = 0;
    assert(dirs.take(0) =~= Seq::empty());
    assert(texts(kept@) =~= Seq::empty());
    while k < unit_dirs.len()
        invariant
            k <= unit_dirs@.len(),
            dirs == texts(unit_dirs@),
            forall|w: World| #[trigger] facts.agrees(w) ==> texts(kept@) == own_units(w, dirs.take(k as int), st@),
        decreases unit_dirs@.len() - k,
    {
        let ghost before = texts(kept@);
        proof {
            assert(dirs.take(k + 1).drop_last() =~= dirs.take(k as int));
            assert(dirs.take(k + 1).last() == unit_dirs@[k as int]@);
        }
        let target = match find_real_path(facts, unit_dirs[k].as_str()) {
            Step::Need(q) => {
                assert(q@ == QueryView::Canonical(dirs[k as int]));
                return Step::Need(q);
            },
            Step::Done(t) => t,
        };
        if !st.sources.contains(target.as_str()) && !st.unit_dirs.contains(target.as_str()) {
            kept.push(unit_dirs[k].clone());
            assert(texts(kept@) =~= before.push(unit_dirs@[k as int]@));
        }
        k += 1;
    }
    assert(dirs.take(k as int) =~= dirs);
    let ExpandState { sources: _, unit_dirs: _, leaves: _, projects, bindings, events } = st;
    let eval_report = summarize(&events);
    Step::Done(
        ExpandedDiscovery {
            unit_dirs: kept,
            synthetic_projects: projects,
            eval_report,
            stack_bindings: bindings,
            events,
        },
    )
}

} // verus!
