//! What lies outside: the file system, and the evaluation of HCL expressions.
//!
//! Nothing here looks outside. A computation that depends on the outside takes the facts that are
//! known, and either comes to its end or asks for one fact more; whoever runs it finds the fact
//! out, adds it, and runs it again. What a computation comes to is stated for every world that
//! agrees with the facts.

use crate::parser::TerragruntConfig;
#[allow(unused_imports)]
use crate::parser::ConfigView;
use crate::stack_file::ParsedStack;
#[allow(unused_imports)]
use crate::stack_file::StackView;
use crate::syntax::{copy_value, same_expr, same_value, Expr, HclValue};
#[allow(unused_imports)]
use crate::syntax::{entry_views, ExprView, ValueView};
use crate::text::clone_opt;
#[allow(unused_imports)]
use crate::text::{opt_text, texts};
use vstd::hash_map::StringHashMap;
use vstd::prelude::*;

verus! {

// ---------------------------------------------------------------- evaluations

/// An expression that is to be evaluated, with all that its value depends on.
#[derive(Debug, PartialEq, Eq)]
pub struct Request {
    pub expr: Expr,
    /// What `values` stands for
    pub values: HclValue,
    /// What `local` stands for
    pub locals: HclValue,
    /// The variables of the `for` expressions around the expression, from the outside in
    pub bindings: Vec<(String, HclValue)>,
    /// What `get_terragrunt_dir()` returns, and where the search for the repository root begins
    pub terragrunt_dir: String,
    /// What `get_parent_terragrunt_dir()` returns
    pub parent_dir: Option<String>,
    /// Whether functions that would read files fail
    pub strict: bool,
}

/// What a request is.
pub struct RequestView {
    pub expr: ExprView,
    pub values: ValueView,
    pub locals: ValueView,
    pub bindings: Seq<(Seq<char>, ValueView)>,
    pub terragrunt_dir: Seq<char>,
    pub parent_dir: Option<Seq<char>>,
    pub strict: bool,
}

impl Request {
    pub open spec fn view(&self) -> RequestView {
        RequestView {
            expr: self.expr@,
            values: self.values@,
            locals: self.locals@,
            bindings: entry_views(self.bindings@),
            terragrunt_dir: self.terragrunt_dir@,
            parent_dir: opt_text(self.parent_dir),
            strict: self.strict,
        }
    }
}

/// What came of an evaluation.
#[derive(Debug, PartialEq, Eq)]
pub struct Answer {
    /// The value, or what went wrong
    pub result: Result<HclValue, String>,
    /// The functions that were called and would have read a file, in order
    pub file_calls: Vec<String>,
}

pub struct AnswerView {
    pub result: Result<ValueView, Seq<char>>,
    pub file_calls: Seq<Seq<char>>,
}

/// The view of a result.
pub open spec fn result_view(r: Result<HclValue, String>) -> Result<ValueView, Seq<char>> {
    match r {
        Ok(v) => Ok(v@),
        Err(e) => Err(e@),
    }
}

impl Answer {
    pub open spec fn view(&self) -> AnswerView {
        AnswerView { result: result_view(self.result), file_calls: texts(self.file_calls@) }
    }
}

/// A copy of a result.
pub fn copy_result(r: &Result<HclValue, String>) -> (res: Result<HclValue, String>)
    ensures
        result_view(res) == result_view(*r),
{
    match r {
        Ok(v) => Ok(copy_value(v)),
        Err(e) => Err(e.clone()),
    }
}

fn same_bindings(a: &Vec<(String, HclValue)>, b: &Vec<(String, HclValue)>) -> (res: bool)
    ensures
        res == (entry_views(a@) == entry_views(b@)),
{
    let ghost u = entry_views(a@);
    let ghost v = entry_views(b@);
    if a.len() != b.len() {
        assert(u.len() != v.len());
        return false;
    }
    let mut i: usize = 0;
    while i < a.len()
        invariant
            a@.len() == b@.len(),
            u == entry_views(a@),
            v == entry_views(b@),
            i <= a@.len(),
            forall|j: int| 0 <= j < i ==> u[j] == v[j],
        decreases a@.len() - i,
    {
        if !(a[i].0 == b[i].0) || !same_value(&a[i].1, &b[i].1) {
            assert(u[i as int] != v[i as int]);
            return false;
        }
        assert(u[i as int] == v[i as int]);
        i += 1;
    }
    assert(u =~= v);
    true
}

fn same_request(a: &Request, b: &Request) -> (res: bool)
    ensures
        res == (a@ == b@),
{
    let same_parent = match (&a.parent_dir, &b.parent_dir) {
        (Some(x), Some(y)) => *x == *y,
        (None, None) => true,
        _ => false,
    };
    same_parent && a.terragrunt_dir == b.terragrunt_dir && a.strict == b.strict && same_expr(&a.expr, &b.expr)
        && same_value(&a.values, &b.values) && same_value(&a.locals, &b.locals) && same_bindings(
        &a.bindings,
        &b.bindings,
    )
}

// --------------------------------------------------------------------- worlds

/// All that a computation can find outside.
pub struct World {
    /// Something is at the path
    pub present: spec_fn(Seq<char>) -> bool,
    /// A file is at the path
    pub is_file: spec_fn(Seq<char>) -> bool,
    /// The absolute path without links that a path leads to
    pub canonical: spec_fn(Seq<char>) -> Option<Seq<char>>,
    /// The configuration in a file, or why there is none
    pub config: spec_fn(Seq<char>) -> Result<ConfigView, Seq<char>>,
    /// The stack file at a path, or why there is none
    pub stack: spec_fn(Seq<char>) -> Result<StackView, Seq<char>>,
    /// What comes of an evaluation
    pub eval: spec_fn(RequestView) -> AnswerView,
}

/// A question about the outside.
#[derive(Debug, PartialEq, Eq)]
pub enum Query {
    /// Is anything at the path?
    Present(String),
    /// Is a file at the path?
    IsFile(String),
    /// Which absolute path without links does the path lead to?
    Canonical(String),
    /// Which configuration is in the file?
    Config(String),
    /// What does the stack file hold?
    Stack(String),
    /// What comes of the evaluation?
    Evaluate(Request),
}

/// What a question is.
pub enum QueryView {
    Present(Seq<char>),
    IsFile(Seq<char>),
    Canonical(Seq<char>),
    Config(Seq<char>),
    Stack(Seq<char>),
    Evaluate(RequestView),
}

impl Query {
    pub open spec fn view(&self) -> QueryView {
        match self {
            Query::Present(p) => QueryView::Present(p@),
            Query::IsFile(p) => QueryView::IsFile(p@),
            Query::Canonical(p) => QueryView::Canonical(p@),
            Query::Config(p) => QueryView::Config(p@),
            Query::Stack(p) => QueryView::Stack(p@),
            Query::Evaluate(r) => QueryView::Evaluate(r@),
        }
    }
}

/// A computation that has come to its end, or that needs to know something.
#[derive(Debug, PartialEq, Eq)]
pub enum Step<T> {
    Done(T),
    Need(Query),
}

/// The facts that are known of the outside.
pub struct Facts {
    present: StringHashMap<bool>,
    is_file: StringHashMap<bool>,
    canonical: StringHashMap<Option<String>>,
    configs: StringHashMap<Result<TerragruntConfig, String>>,
    stacks: StringHashMap<Result<ParsedStack, String>>,
    evals: Vec<(Request, Answer)>,
}

/// The view of what is in a configuration file.
pub open spec fn config_result(r: Result<TerragruntConfig, String>) -> Result<ConfigView, Seq<char>> {
    match r {
        Ok(c) => Ok(c@),
        Err(e) => Err(e@),
    }
}

/// The view of what is in a stack file.
pub open spec fn stack_result(r: Result<ParsedStack, String>) -> Result<StackView, Seq<char>> {
    match r {
        Ok(s) => Ok(s@),
        Err(e) => Err(e@),
    }
}

spec fn flags_agree(m: Map<Seq<char>, bool>, f: spec_fn(Seq<char>) -> bool) -> bool {
    forall|p: Seq<char>| #[trigger] m.contains_key(p) ==> f(p) == m[p]
}

proof fn lemma_flags_agree(m: Map<Seq<char>, bool>, f: spec_fn(Seq<char>) -> bool, k: Seq<char>, v: bool)
    requires
        !m.contains_key(k),
    ensures
        flags_agree(m.insert(k, v), f) <==> flags_agree(m, f) && f(k) == v,
{
    let n = m.insert(k, v);
    if flags_agree(n, f) {
        assert(n.contains_key(k));
        assert forall|p: Seq<char>| #[trigger] m.contains_key(p) implies f(p) == m[p] by {
            assert(n.contains_key(p));
        }
    }
    if flags_agree(m, f) && f(k) == v {
        assert forall|p: Seq<char>| #[trigger] n.contains_key(p) implies f(p) == n[p] by {
            if p != k {
                assert(m.contains_key(p));
            }
        }
    }
}

spec fn targets_agree(m: Map<Seq<char>, Option<String>>, f: spec_fn(Seq<char>) -> Option<Seq<char>>) -> bool {
    forall|p: Seq<char>| #[trigger] m.contains_key(p) ==> f(p) == opt_text(m[p])
}

proof fn lemma_targets_agree(m: Map<Seq<char>, Option<String>>, f: spec_fn(Seq<char>) -> Option<Seq<char>>, k: Seq<char>, v: Option<String>)
    requires
        !m.contains_key(k),
    ensures
        targets_agree(m.insert(k, v), f) <==> targets_agree(m, f) && f(k) == opt_text(v),
{
    let n = m.insert(k, v);
    if targets_agree(n, f) {
        assert(n.contains_key(k));
        assert forall|p: Seq<char>| #[trigger] m.contains_key(p) implies f(p) == opt_text(m[p]) by {
            assert(n.contains_key(p));
        }
    }
    if targets_agree(m, f) && f(k) == opt_text(v) {
        assert forall|p: Seq<char>| #[trigger] n.contains_key(p) implies f(p) == opt_text(n[p]) by {
            if p != k {
                assert(m.contains_key(p));
            }
        }
    }
}

spec fn configs_agree(m: Map<Seq<char>, Result<TerragruntConfig, String>>, f: spec_fn(Seq<char>) -> Result<ConfigView, Seq<char>>) -> bool {
    forall|p: Seq<char>| #[trigger] m.contains_key(p) ==> f(p) == config_result(m[p])
}

proof fn lemma_configs_agree(m: Map<Seq<char>, Result<TerragruntConfig, String>>, f: spec_fn(Seq<char>) -> Result<ConfigView, Seq<char>>, k: Seq<char>, v: Result<TerragruntConfig, String>)
    requires
        !m.contains_key(k),
    ensures
        configs_agree(m.insert(k, v), f) <==> configs_agree(m, f) && f(k) == config_result(v),
{
    let n = m.insert(k, v);
    if configs_agree(n, f) {
        assert(n.contains_key(k));
        assert forall|p: Seq<char>| #[trigger] m.contains_key(p) implies f(p) == config_result(m[p]) by {
            assert(n.contains_key(p));
        }
    }
    if configs_agree(m, f) && f(k) == config_result(v) {
        assert forall|p: Seq<char>| #[trigger] n.contains_key(p) implies f(p) == config_result(n[p]) by {
            if p != k {
                assert(m.contains_key(p));
            }
        }
    }
}

spec fn stacks_agree(m: Map<Seq<char>, Result<ParsedStack, String>>, f: spec_fn(Seq<char>) -> Result<StackView, Seq<char>>) -> bool {
    forall|p: Seq<char>| #[trigger] m.contains_key(p) ==> f(p) == stack_result(m[p])
}

proof fn lemma_stacks_agree(m: Map<Seq<char>, Result<ParsedStack, String>>, f: spec_fn(Seq<char>) -> Result<StackView, Seq<char>>, k: Seq<char>, v: Result<ParsedStack, String>)
    requires
        !m.contains_key(k),
    ensures
        stacks_agree(m.insert(k, v), f) <==> stacks_agree(m, f) && f(k) == stack_result(v),
{
    let n = m.insert(k, v);
    if stacks_agree(n, f) {
        assert(n.contains_key(k));
        assert forall|p: Seq<char>| #[trigger] m.contains_key(p) implies f(p) == stack_result(m[p]) by {
            assert(n.contains_key(p));
        }
    }
    if stacks_agree(m, f) && f(k) == stack_result(v) {
        assert forall|p: Seq<char>| #[trigger] n.contains_key(p) implies f(p) == stack_result(n[p]) by {
            if p != k {
                assert(m.contains_key(p));
            }
        }
    }
}

spec fn evals_agree(s: Seq<(Request, Answer)>, f: spec_fn(RequestView) -> AnswerView) -> bool {
    forall|i: int| 0 <= i < s.len() ==> f((#[trigger] s[i]).0@) == s[i].1@
}

proof fn lemma_evals_agree(s: Seq<(Request, Answer)>, f: spec_fn(RequestView) -> AnswerView, r: Request, a: Answer)
    ensures
        evals_agree(s.push((r, a)), f) <==> evals_agree(s, f) && f(r@) == a@,
{
    let n = s.push((r, a));
    assert(n[s.len() as int] == (r, a));
    if evals_agree(n, f) {
        assert forall|i: int| 0 <= i < s.len() implies f((#[trigger] s[i]).0@) == s[i].1@ by {
            assert(n[i] == s[i]);
        }
    }
    if evals_agree(s, f) && f(r@) == a@ {
        assert forall|i: int| 0 <= i < n.len() implies f((#[trigger] n[i]).0@) == n[i].1@ by {
            if i < s.len() {
                assert(n[i] == s[i]);
            }
        }
    }
}

impl Facts {
    /// The world is as the facts say.
    pub closed spec fn agrees(&self, w: World) -> bool {
        &&& flags_agree(self.present@, w.present)
        &&& flags_agree(self.is_file@, w.is_file)
        &&& targets_agree(self.canonical@, w.canonical)
        &&& configs_agree(self.configs@, w.config)
        &&& stacks_agree(self.stacks@, w.stack)
        &&& evals_agree(self.evals@, w.eval)
    }

    /// The answer to the query is among the facts.
    pub closed spec fn knows(&self, q: QueryView) -> bool {
        match q {
            QueryView::Present(p) => self.present@.contains_key(p),
            QueryView::IsFile(p) => self.is_file@.contains_key(p),
            QueryView::Canonical(p) => self.canonical@.contains_key(p),
            QueryView::Config(p) => self.configs@.contains_key(p),
            QueryView::Stack(p) => self.stacks@.contains_key(p),
            QueryView::Evaluate(r) => exists|i: int| 0 <= i < self.evals@.len() && (#[trigger] self.evals@[i]).0@ == r,
        }
    }

    /// No evaluation is answered twice.
    pub closed spec fn consistent(&self) -> bool {
        forall|i: int, j: int|
            0 <= i < j < self.evals@.len() ==> (#[trigger] self.evals@[i]).0@ != (#[trigger] self.evals@[j]).0@
    }

    /// No facts.
    pub fn new() -> (res: Facts)
        ensures
            forall|w: World| res.agrees(w),
            forall|q: QueryView| !res.knows(q),
            res.consistent(),
    {
        Facts {
            present: StringHashMap::new(),
            is_file: StringHashMap::new(),
            canonical: StringHashMap::new(),
            configs: StringHashMap::new(),
            stacks: StringHashMap::new(),
            evals: Vec::new(),
        }
    }

    /// Whether something is at the path.
    pub fn present(&self, path: &str) -> (res: Step<bool>)
        ensures
            match res {
                Step::Done(b) => forall|w: World| #[trigger] self.agrees(w) ==> (w.present)(path@) == b,
                Step::Need(q) => q@ == QueryView::Present(path@) && !self.knows(q@),
            },
    {
        match self.present.get(path) {
            Some(b) => Step::Done(*b),
            None => Step::Need(Query::Present(path.to_owned())),
        }
    }

    /// Whether a file is at the path.
    pub fn is_file(&self, path: &str) -> (res: Step<bool>)
        ensures
            match res {
                Step::Done(b) => forall|w: World| #[trigger] self.agrees(w) ==> (w.is_file)(path@) == b,
                Step::Need(q) => q@ == QueryView::IsFile(path@) && !self.knows(q@),
            },
    {
        match self.is_file.get(path) {
            Some(b) => Step::Done(*b),
            None => Step::Need(Query::IsFile(path.to_owned())),
        }
    }

    /// The absolute path without links that the path leads to.
    pub fn canonical(&self, path: &str) -> (res: Step<Option<String>>)
        ensures
            match res {
                Step::Done(c) => forall|w: World| #[trigger] self.agrees(w) ==> (w.canonical)(path@) == opt_text(c),
                Step::Need(q) => q@ == QueryView::Canonical(path@) && !self.knows(q@),
            },
    {
        match self.canonical.get(path) {
            Some(c) => Step::Done(clone_opt(c)),
            None => Step::Need(Query::Canonical(path.to_owned())),
        }
    }

    /// The configuration in the file.
    pub fn config(&self, path: &str) -> (res: Step<&Result<TerragruntConfig, String>>)
        ensures
            match res {
                Step::Done(c) => forall|w: World| #[trigger]
                    self.agrees(w) ==> (w.config)(path@) == config_result(*c),
                Step::Need(q) => q@ == QueryView::Config(path@) && !self.knows(q@),
            },
    {
        match self.configs.get(path) {
            Some(c) => Step::Done(c),
            None => Step::Need(Query::Config(path.to_owned())),
        }
    }

    /// The stack file.
    pub fn stack(&self, path: &str) -> (res: Step<&Result<ParsedStack, String>>)
        ensures
            match res {
                Step::Done(s) => forall|w: World| #[trigger] self.agrees(w) ==> (w.stack)(path@) == stack_result(*s),
                Step::Need(q) => q@ == QueryView::Stack(path@) && !self.knows(q@),
            },
    {
        match self.stacks.get(path) {
            Some(s) => Step::Done(s),
            None => Step::Need(Query::Stack(path.to_owned())),
        }
    }

    /// What comes of an evaluation.
    pub fn evaluate(&self, request: Request) -> (res: Step<&Answer>)
        ensures
            match res {
                Step::Done(a) => forall|w: World| #[trigger] self.agrees(w) ==> (w.eval)(request@) == a@,
                Step::Need(q) => q@ == QueryView::Evaluate(request@) && !self.knows(q@),
            },
    {
        let mut i: usize = 0;
        while i < self.evals.len()
            invariant
                i <= self.evals@.len(),
                forall|j: int| 0 <= j < i ==> (#[trigger] self.evals@[j]).0@ != request@,
            decreases self.evals@.len() - i,
        {
            if same_request(&self.evals[i].0, &request) {
                return Step::Done(&self.evals[i].1);
            }
            i += 1;
        }
        Step::Need(Query::Evaluate(request))
    }

    /// Adds whether something is at the path.
    pub fn add_present(&mut self, path: &str, found: bool)
        requires
            !old(self).knows(QueryView::Present(path@)),
        ensures
            forall|q: QueryView| #[trigger]
                final(self).knows(q) <==> old(self).knows(q) || q == QueryView::Present(path@),
            forall|w: World| #[trigger]
                final(self).agrees(w) <==> old(self).agrees(w) && (w.present)(path@) == found,
            old(self).consistent() ==> final(self).consistent(),
    {
        self.present.insert(path.to_owned(), found);
        proof {
            assert forall|w: World| #[trigger] self.agrees(w) <==> old(self).agrees(w) && (w.present)(path@) == found by {
                lemma_flags_agree(old(self).present@, w.present, path@, found);
            }
        }
    }

    /// Adds whether a file is at the path.
    pub fn add_is_file(&mut self, path: &str, found: bool)
        requires
            !old(self).knows(QueryView::IsFile(path@)),
        ensures
            forall|q: QueryView| #[trigger]
                final(self).knows(q) <==> old(self).knows(q) || q == QueryView::IsFile(path@),
            forall|w: World| #[trigger]
                final(self).agrees(w) <==> old(self).agrees(w) && (w.is_file)(path@) == found,
            old(self).consistent() ==> final(self).consistent(),
    {
        self.is_file.insert(path.to_owned(), found);
        proof {
            assert forall|w: World| #[trigger] self.agrees(w) <==> old(self).agrees(w) && (w.is_file)(path@) == found by {
                lemma_flags_agree(old(self).is_file@, w.is_file, path@, found);
            }
        }
    }

    /// Adds the absolute path without links that the path leads to.
    pub fn add_canonical(&mut self, path: &str, target: Option<String>)
        requires
            !old(self).knows(QueryView::Canonical(path@)),
        ensures
            forall|q: QueryView| #[trigger]
                final(self).knows(q) <==> old(self).knows(q) || q == QueryView::Canonical(path@),
            forall|w: World| #[trigger]
                final(self).agrees(w) <==> old(self).agrees(w) && (w.canonical)(path@) == opt_text(target),
            old(self).consistent() ==> final(self).consistent(),
    {
        self.canonical.insert(path.to_owned(), target);
        proof {
            assert forall|w: World| #[trigger] self.agrees(w) <==> old(self).agrees(w) && (w.canonical)(path@) == opt_text(target) by {
                lemma_targets_agree(old(self).canonical@, w.canonical, path@, target);
            }
        }
    }

    /// Adds the configuration in the file.
    pub fn add_config(&mut self, path: &str, config: Result<TerragruntConfig, String>)
        requires
            !old(self).knows(QueryView::Config(path@)),
        ensures
            forall|q: QueryView| #[trigger]
                final(self).knows(q) <==> old(self).knows(q) || q == QueryView::Config(path@),
            forall|w: World| #[trigger]
                final(self).agrees(w) <==> old(self).agrees(w) && (w.config)(path@) == config_result(config),
            old(self).consistent() ==> final(self).consistent(),
    {
        self.configs.insert(path.to_owned(), config);
        proof {
            assert forall|w: World| #[trigger] self.agrees(w) <==> old(self).agrees(w) && (w.config)(path@) == config_result(config) by {
                lemma_configs_agree(old(self).configs@, w.config, path@, config);
            }
        }
    }

    /// Adds what the stack file holds.
    pub fn add_stack(&mut self, path: &str, stack: Result<ParsedStack, String>)
        requires
            !old(self).knows(QueryView::Stack(path@)),
        ensures
            forall|q: QueryView| #[trigger]
                final(self).knows(q) <==> old(self).knows(q) || q == QueryView::Stack(path@),
            forall|w: World| #[trigger]
                final(self).agrees(w) <==> old(self).agrees(w) && (w.stack)(path@) == stack_result(stack),
            old(self).consistent() ==> final(self).consistent(),
    {
        self.stacks.insert(path.to_owned(), stack);
        proof {
            assert forall|w: World| #[trigger] self.agrees(w) <==> old(self).agrees(w) && (w.stack)(path@) == stack_result(stack) by {
                lemma_stacks_agree(old(self).stacks@, w.stack, path@, stack);
            }
        }
    }

    /// Adds what came of an evaluation.
    pub fn add_evaluation(&mut self, request: Request, answer: Answer)
        requires
            !old(self).knows(QueryView::Evaluate(request@)),
        ensures
            forall|q: QueryView| #[trigger]
                final(self).knows(q) <==> old(self).knows(q) || q == QueryView::Evaluate(request@),
            forall|w: World| #[trigger]
                final(self).agrees(w) <==> old(self).agrees(w) && (w.eval)(request@) == answer@,
            old(self).consistent() ==> final(self).consistent(),
    {
        let ghost before = self.evals@;
        self.evals.push((request, answer));
        proof {
            let after = self.evals@;
            assert(after[before.len() as int] == (request, answer));
            assert forall|w: World| #[trigger] self.agrees(w) <==> old(self).agrees(w) && (w.eval)(request@)
                == answer@ by {
                lemma_evals_agree(before, w.eval, request, answer);
            }
            if old(self).consistent() {
                assert forall|i: int, j: int| 0 <= i < j < after.len() implies (#[trigger] after[i]).0@ != (
                #[trigger] after[j]).0@ by {
                    assert(before[i] == after[i]);
                    if j < before.len() {
                        assert(before[j] == after[j]);
                    } else {
                        assert(!old(self).knows(QueryView::Evaluate(request@)));
                    }
                }
            }
            assert forall|q: QueryView| #[trigger]
                self.knows(q) <==> old(self).knows(q) || q == QueryView::Evaluate(request@) by {
                if old(self).knows(q) && q is Evaluate {
                    let i = choose|i: int| 0 <= i < before.len() && (#[trigger] before[i]).0@ == q->Evaluate_0;
                    assert(after[i].0@ == q->Evaluate_0);
                }
                if self.knows(q) && q is Evaluate {
                    let i = choose|i: int| 0 <= i < after.len() && (#[trigger] after[i]).0@ == q->Evaluate_0;
                    if i < before.len() {
                        assert(before[i].0@ == q->Evaluate_0);
                    }
                }
            }
        }
    }
}

/// The facts never contradict each other: however many of them have been added, there is a world
/// that agrees with them.
pub proof fn law_facts_hold_somewhere(facts: Facts)
    requires
        facts.consistent(),
    ensures
        exists|w: World| facts.agrees(w),
{
    let evals = facts.evals@;
    let w = World {
        present: |p: Seq<char>| facts.present@[p],
        is_file: |p: Seq<char>| facts.is_file@[p],
        canonical: |p: Seq<char>| opt_text(facts.canonical@[p]),
        config: |p: Seq<char>| config_result(facts.configs@[p]),
        stack: |p: Seq<char>| stack_result(facts.stacks@[p]),
        eval: |r: RequestView| evals[choose|i: int| 0 <= i < evals.len() && (#[trigger] evals[i]).0@ == r].1@,
    };
    assert forall|i: int| 0 <= i < evals.len() implies (w.eval)((#[trigger] evals[i]).0@) == evals[i].1@ by {
        let r = evals[i].0@;
        let k = choose|k: int| 0 <= k < evals.len() && (#[trigger] evals[k]).0@ == r;
        assert(0 <= k < evals.len() && evals[k].0@ == r);
        if k < i {
            assert(facts.evals@[k].0@ != facts.evals@[i].0@);
        } else if i < k {
            assert(facts.evals@[i].0@ != facts.evals@[k].0@);
        }
    }
    assert(facts.agrees(w));
}

} // verus!
