//! Evaluates the expressions that bind `values = { ... }` in `terragrunt.stack.hcl` units.
//!
//! The evaluation itself is asked for outside. What is done here is to give `try(...)` its lazy
//! meaning: its arguments are evaluated one by one, and the first success wins. So
//! `try(values.missing, "default")` is `"default"`, and not an error because `values.missing`
//! cannot be evaluated.

use crate::builtins::{put_debug, put_entry, show_bool, show_number};
#[allow(unused_imports)]
use crate::builtins::{bool_text, debug_text, number_text, with_entry};
use crate::syntax::{copy_entries, copy_expr, copy_value, same_expr, Contents, Expr, HclValue, Number, ObjectKey, Structure};
#[allow(unused_imports)]
use crate::syntax::{
    entry_views, expr_views, lemma_array_view, lemma_object_view, value_views, ContentsView, ExprView, KeyView,
    NumberView, StructureView, ValueView,
};
use crate::text::{clone_opt, clone_texts, same};
#[allow(unused_imports)]
use crate::text::{opt_text, texts};
use crate::world::{copy_result, Answer, Facts, Request, Step};
#[allow(unused_imports)]
use crate::world::{AnswerView, QueryView, RequestView, World};
use vstd::prelude::*;

verus! {

/// What an expression is evaluated in.
#[derive(Debug, PartialEq, Eq)]
pub struct Scope {
    /// What `values` stands for
    pub values: HclValue,
    /// What `local` stands for
    pub locals: HclValue,
    /// What `get_terragrunt_dir()` returns
    pub terragrunt_dir: String,
    /// What `get_parent_terragrunt_dir()` returns
    pub parent_dir: Option<String>,
    /// Whether functions that would read files fail
    pub strict: bool,
}

/// What a scope is.
pub struct ScopeView {
    pub values: ValueView,
    pub locals: ValueView,
    pub terragrunt_dir: Seq<char>,
    pub parent_dir: Option<Seq<char>>,
    pub strict: bool,
}

impl Scope {
    pub open spec fn view(&self) -> ScopeView {
        ScopeView {
            values: self.values@,
            locals: self.locals@,
            terragrunt_dir: self.terragrunt_dir@,
            parent_dir: opt_text(self.parent_dir),
            strict: self.strict,
        }
    }
}

/// The variables of the `for` expressions around an expression, from the outside in.
pub type BindingsView = Seq<(Seq<char>, ValueView)>;

// --------------------------------------------------------- looking for `try`

/// A call of `try` itself.
pub open spec fn is_try(e: ExprView) -> bool {
    e is FuncCall && e->namespace.len() == 0 && e->name == "try"@
}

fn is_bare_try(e: &Expr) -> (res: bool)
    ensures
        res == is_try(e@),
{
    match e {
        Expr::FuncCall { namespace, name, args, expand_final } => namespace.len() == 0 && same(name.as_str(), "try"),
        _ => false,
    }
}

/// A call of `try` is in the expression; one in a template, or in a `for` directive, does not
/// count.
pub open spec fn has_try(e: ExprView) -> bool
    decreases e,
{
    match e {
        ExprView::FuncCall { namespace, name, args, expand_final } => is_try(e) || exists|i: int|
            0 <= i < args.len() && has_try(#[trigger] args[i]),
        ExprView::Array(items) => exists|i: int| 0 <= i < items.len() && has_try(#[trigger] items[i]),
        ExprView::Object(items) => exists|i: int|
            0 <= i < items.len() && (((#[trigger] items[i]).0 is Expression && has_try(items[i].0->Expression_0)) || has_try(
                items[i].1,
            )),
        ExprView::Traversal { expr, operators } => has_try(*expr),
        ExprView::Parenthesis(x) => has_try(*x),
        ExprView::Conditional { cond, yes, no } => has_try(*cond) || has_try(*yes) || has_try(*no),
        ExprView::Unary { operator, expr } => has_try(*expr),
        ExprView::Binary { lhs, operator, rhs } => has_try(*lhs) || has_try(*rhs),
        ExprView::For { key_var, value_var, collection, key, value, grouping, cond } => has_try(*collection) || (key is Some
            && has_try(*key->0)) || has_try(*value) || (cond is Some && has_try(*cond->0)),
        _ => false,
    }
}

fn any_try(items: &Vec<Expr>) -> (res: bool)
    ensures
        res == exists|i: int| 0 <= i < items@.len() && has_try((#[trigger] items@[i])@),
    decreases items,
{
    let mut i: usize = 0;
    while i < items.len()
        invariant
            i <= items@.len(),
            forall|j: int| 0 <= j < i ==> !has_try((#[trigger] items@[j])@),
        decreases items@.len() - i,
    {
        assert(decreases_to!(items => items@[i as int]));
        if contains_try(&items[i]) {
            return true;
        }
        i += 1;
    }
    false
}

fn any_item_try(items: &Vec<(ObjectKey, Expr)>) -> (res: bool)
    ensures
        res == exists|i: int|
            0 <= i < items@.len() && (((#[trigger] items@[i]).0@ is Expression && has_try(
                items@[i].0@->Expression_0,
            )) || has_try(items@[i].1@)),
    decreases items,
{
    let mut i: usize = 0;
    while i < items.len()
        invariant
            i <= items@.len(),
            forall|j: int|
                0 <= j < i ==> !(((#[trigger] items@[j]).0@ is Expression && has_try(
                    items@[j].0@->Expression_0,
                )) || has_try(items@[j].1@)),
        decreases items@.len() - i,
    {
        assert(decreases_to!(items => items@[i as int]));
        assert(decreases_to!(items@[i as int] => items@[i as int].0));
        assert(decreases_to!(items@[i as int] => items@[i as int].1));
        match &items[i].0 {
            ObjectKey::Expression(e) => {
                assert(decreases_to!(items@[i as int].0 => items@[i as int].0->Expression_0));
                if contains_try(e) {
                    return true;
                }
            },
            ObjectKey::Identifier(_) => {},
        }
        if contains_try(&items[i].1) {
            return true;
        }
        i += 1;
    }
    false
}

/// Whether the expression, or a part of it, is a `try(...)` call.
pub fn contains_try(expr: &Expr) -> (res: bool)
    ensures
        res == has_try(expr@),
    decreases expr,
{
    match expr {
        Expr::FuncCall { namespace, name, args, expand_final } => {
            proof {
                let views = expr@->args;
                assert forall|i: int| 0 <= i < views.len() implies #[trigger] views[i] == args@[i]@ by {}
                if exists|i: int| 0 <= i < args@.len() && has_try((#[trigger] args@[i])@) {
                    let i = choose|i: int| 0 <= i < args@.len() && has_try((#[trigger] args@[i])@);
                    assert(has_try(views[i]));
                }
                if exists|i: int| 0 <= i < views.len() && has_try(#[trigger] views[i]) {
                    let i = choose|i: int| 0 <= i < views.len() && has_try(#[trigger] views[i]);
                    assert(has_try(args@[i]@));
                }
            }
            is_bare_try(expr) || any_try(args)
        },
        Expr::Array(items) => {
            proof {
                let views = expr@->Array_0;
                assert forall|i: int| 0 <= i < views.len() implies #[trigger] views[i] == items@[i]@ by {}
                if exists|i: int| 0 <= i < items@.len() && has_try((#[trigger] items@[i])@) {
                    let i = choose|i: int| 0 <= i < items@.len() && has_try((#[trigger] items@[i])@);
                    assert(has_try(views[i]));
                }
                if exists|i: int| 0 <= i < views.len() && has_try(#[trigger] views[i]) {
                    let i = choose|i: int| 0 <= i < views.len() && has_try(#[trigger] views[i]);
                    assert(has_try(items@[i]@));
                }
            }
            any_try(items)
        },
        Expr::Object(items) => {
            proof {
                let views = expr@->Object_0;
                assert forall|i: int| 0 <= i < views.len() implies #[trigger] views[i] == (items@[i].0@, items@[i].1@) by {}
                if exists|i: int|
                    0 <= i < items@.len() && (((#[trigger] items@[i]).0@ is Expression && has_try(
                        items@[i].0@->Expression_0,
                    )) || has_try(items@[i].1@)) {
                    let i = choose|i: int|
                        0 <= i < items@.len() && (((#[trigger] items@[i]).0@ is Expression && has_try(
                            items@[i].0@->Expression_0,
                        )) || has_try(items@[i].1@));
                    assert((views[i].0 is Expression && has_try(views[i].0->Expression_0)) || has_try(views[i].1));
                }
                if exists|i: int|
                    0 <= i < views.len() && (((#[trigger] views[i]).0 is Expression && has_try(
                        views[i].0->Expression_0,
                    )) || has_try(views[i].1)) {
                    let i = choose|i: int|
                        0 <= i < views.len() && (((#[trigger] views[i]).0 is Expression && has_try(
                            views[i].0->Expression_0,
                        )) || has_try(views[i].1));
                    assert((items@[i].0@ is Expression && has_try(items@[i].0@->Expression_0)) || has_try(items@[i].1@));
                }
            }
            any_item_try(items)
        },
        Expr::Traversal { expr: x, operators } => contains_try(x),
        Expr::Parenthesis(x) => contains_try(x),
        Expr::Conditional { cond, yes, no } => contains_try(cond) || contains_try(yes) || contains_try(no),
        Expr::Unary { operator, expr: x } => contains_try(x),
        Expr::Binary { lhs, operator, rhs } => contains_try(lhs) || contains_try(rhs),
        Expr::For { key_var, value_var, collection, key, value, grouping, cond } => {
            contains_try(collection) || (match key {
                Some(k) => contains_try(k),
                None => false,
            }) || contains_try(value) || (match cond {
                Some(c) => contains_try(c),
                None => false,
            })
        },
        _ => false,
    }
}

// -------------------------------------------------------------- what it comes to

/// The request for the evaluation of `e`.
pub open spec fn request_of(e: ExprView, s: ScopeView, b: BindingsView) -> RequestView {
    RequestView {
        expr: e,
        values: s.values,
        locals: s.locals,
        bindings: b,
        terragrunt_dir: s.terragrunt_dir,
        parent_dir: s.parent_dir,
        strict: s.strict,
    }
}

/// What comes of evaluating `e` as it stands.
pub open spec fn ask(w: World, e: ExprView, s: ScopeView, b: BindingsView) -> AnswerView {
    (w.eval)(request_of(e, s, b))
}

/// An answer, behind what was called before.
pub open spec fn after(calls: Seq<Seq<char>>, a: AnswerView) -> AnswerView {
    AnswerView { result: a.result, file_calls: calls + a.file_calls }
}

/// A value that nothing was called for.
pub open spec fn plain(v: ValueView) -> AnswerView {
    AnswerView { result: Ok(v), file_calls: Seq::empty() }
}

/// A failure that nothing was called for.
pub open spec fn failing(message: Seq<char>) -> AnswerView {
    AnswerView { result: Err(message), file_calls: Seq::empty() }
}

/// The expression that stands for a value.
pub open spec fn literal(v: ValueView) -> ExprView
    decreases v,
{
    match v {
        ValueView::Null => ExprView::Null,
        ValueView::Bool(b) => ExprView::Bool(b),
        ValueView::Number(n) => ExprView::Number(n),
        ValueView::String(t) => ExprView::String(t),
        ValueView::Array(items) => ExprView::Array(
            Seq::new(
                items.len(),
                |i: int|
                    if 0 <= i < items.len() {
                        literal(items[i])
                    } else {
                        ExprView::Null
                    },
            ),
        ),
        ValueView::Object(items) => ExprView::Object(
            Seq::new(
                items.len(),
                |i: int|
                    if 0 <= i < items.len() {
                        (KeyView::Expression(ExprView::String(items[i].0)), literal(items[i].1))
                    } else {
                        (KeyView::Identifier(Seq::empty()), ExprView::Null)
                    },
            ),
        ),
    }
}

/// The items that a `for` expression goes over: of an array with their positions, of an object
/// with their keys.
pub open spec fn pairs_of(v: ValueView) -> Option<Seq<(ValueView, ValueView)>> {
    match v {
        ValueView::Array(items) => Some(
            Seq::new(items.len(), |i: int| (ValueView::Number(NumberView::PosInt(i as u64)), items[i])),
        ),
        ValueView::Object(items) => Some(Seq::new(items.len(), |i: int| (ValueView::String(items[i].0), items[i].1))),
        _ => None,
    }
}

/// The bindings of one turn of a `for` expression: its variables inside those around it.
pub open spec fn bind(
    b: BindingsView,
    key_var: Option<Seq<char>>,
    value_var: Seq<char>,
    pair: (ValueView, ValueView),
) -> BindingsView {
    match key_var {
        Some(k) => b.push((k, pair.0)).push((value_var, pair.1)),
        None => b.push((value_var, pair.1)),
    }
}

/// The key that a value is.
pub open spec fn key_text(v: ValueView) -> Option<Seq<char>> {
    match v {
        ValueView::String(t) => Some(t),
        ValueView::Bool(b) => Some(bool_text(b)),
        ValueView::Number(n) => Some(number_text(n)),
        _ => None,
    }
}

/// The items, with `value` put at the end of the array that `key` stands for.
pub open spec fn with_grouped(
    items: Seq<(Seq<char>, ValueView)>,
    key: Seq<char>,
    value: ValueView,
) -> Seq<(Seq<char>, ValueView)> {
    with_entry(
        items,
        key,
        match crate::builtins::entry(items, key) {
            Some(ValueView::Array(group)) => ValueView::Array(group.push(value)),
            _ => ValueView::Array(seq![value]),
        },
    )
}

/// What a `for` expression has collected, with one value more.
pub open spec fn collect(acc: ValueView, key: Option<Seq<char>>, value: ValueView, grouping: bool) -> ValueView {
    match (acc, key) {
        (ValueView::Array(items), None) => ValueView::Array(items.push(value)),
        (ValueView::Object(items), Some(k)) => ValueView::Object(
            if grouping {
                with_grouped(items, k, value)
            } else {
                with_entry(items, k, value)
            },
        ),
        _ => acc,
    }
}

/// What an expression is turned into so that it can be evaluated as it stands.
pub struct RewriteView {
    pub expr: Result<ExprView, Seq<char>>,
    pub file_calls: Seq<Seq<char>>,
}

/// The order among an expression's own meanings.
pub open spec fn own_rank(e: ExprView) -> int {
    if is_try(e) || e is For {
        1
    } else {
        3
    }
}

/// What comes of evaluating `e` with lazy `try`.
pub open spec fn lazily(w: World, e: ExprView, s: ScopeView, b: BindingsView) -> AnswerView
    decreases e, own_rank(e), 0int,
{
    if b.len() == 0 && !has_try(e) {
        ask(w, e, s, b)
    } else if is_try(e) {
        tries(w, e->args, s, b, 0, false, None)
    } else if e is For {
        let c = lazily(w, *e->collection, s, b);
        match c.result {
            Err(_) => c,
            Ok(v) => match pairs_of(v) {
                None => after(c.file_calls, failing("for: expected array or object, got "@ + debug_text(v))),
                Some(pairs) => after(
                    c.file_calls,
                    turns(
                        w,
                        e,
                        s,
                        b,
                        pairs,
                        0,
                        if e->key is Some {
                            ValueView::Object(Seq::empty())
                        } else {
                            ValueView::Array(Seq::empty())
                        },
                    ),
                ),
            },
        }
    } else {
        let r = rewritten(w, e, s, b);
        match r.expr {
            Ok(x) => after(r.file_calls, ask(w, x, s, b)),
            Err(m) => AnswerView { result: Err(m), file_calls: r.file_calls },
        }
    }
}

/// What comes of the arguments of a `try` from position `k` on: the first that can be evaluated
/// and is not null; else null, where one of them was null; else the last failure.
pub open spec fn tries(
    w: World,
    args: Seq<ExprView>,
    s: ScopeView,
    b: BindingsView,
    k: int,
    was_null: bool,
    failure: Option<Seq<char>>,
) -> AnswerView
    decreases args, 0int, args.len() - k,
{
    if k < 0 || k >= args.len() {
        if was_null {
            plain(ValueView::Null)
        } else {
            failing(
                match failure {
                    Some(m) => m,
                    None => "try: no arguments"@,
                },
            )
        }
    } else {
        proof {
            assert(decreases_to!(args => args[k]));
        }
        let a = lazily(w, args[k], s, b);
        match a.result {
            Ok(ValueView::Null) => after(a.file_calls, tries(w, args, s, b, k + 1, true, failure)),
            Ok(v) => a,
            Err(m) => after(a.file_calls, tries(w, args, s, b, k + 1, was_null, Some(m))),
        }
    }
}

/// What comes of the turns of a `for` expression from position `k` on, with what has been
/// collected before.
pub open spec fn turns(
    w: World,
    e: ExprView,
    s: ScopeView,
    b: BindingsView,
    pairs: Seq<(ValueView, ValueView)>,
    k: int,
    acc: ValueView,
) -> AnswerView
    decreases e, 0int, pairs.len() - k,
{
    if k < 0 || k >= pairs.len() || !(e is For) {
        plain(acc)
    } else {
        let inner = bind(b, e->key_var, e->value_var, pairs[k]);
        let c = match e->For_cond {
            Some(cond) => lazily(w, *cond, s, inner),
            None => plain(ValueView::Bool(true)),
        };
        match c.result {
            Err(_) => c,
            Ok(ValueView::Bool(false)) => after(c.file_calls, turns(w, e, s, b, pairs, k + 1, acc)),
            Ok(ValueView::Bool(true)) => {
                let v = lazily(w, *e->value, s, inner);
                let calls = c.file_calls + v.file_calls;
                match v.result {
                    Err(_) => after(c.file_calls, v),
                    Ok(x) => match e->key {
                        None => after(calls, turns(w, e, s, b, pairs, k + 1, collect(acc, None, x, e->grouping))),
                        Some(key) => {
                            let kv = lazily(w, *key, s, inner);
                            match kv.result {
                                Err(_) => after(calls, kv),
                                Ok(y) => match key_text(y) {
                                    None => after(
                                        calls + kv.file_calls,
                                        failing("for: object key must be string-like, got "@ + debug_text(y)),
                                    ),
                                    Some(t) => after(
                                        calls + kv.file_calls,
                                        turns(w, e, s, b, pairs, k + 1, collect(acc, Some(t), x, e->grouping)),
                                    ),
                                },
                            }
                        },
                    },
                }
            },
            Ok(other) => after(c.file_calls, failing("for: condition must be boolean, got "@ + debug_text(other))),
        }
    }
}

/// The rewriting of one part, behind the rewriting of others.
pub open spec fn follow(calls: Seq<Seq<char>>, r: RewriteView) -> RewriteView {
    RewriteView { expr: r.expr, file_calls: calls + r.file_calls }
}

/// `e`, with every call of `try` and every `for` expression replaced by the literal of its value.
pub open spec fn rewritten(w: World, e: ExprView, s: ScopeView, b: BindingsView) -> RewriteView
    decreases e, 2int, 0int,
{
    if b.len() == 0 && !has_try(e) {
        RewriteView { expr: Ok(e), file_calls: Seq::empty() }
    } else if is_try(e) || e is For {
        let a = lazily(w, e, s, b);
        RewriteView {
            expr: match a.result {
                Ok(v) => Ok(literal(v)),
                Err(m) => Err(m),
            },
            file_calls: a.file_calls,
        }
    } else {
        match e {
            ExprView::FuncCall { namespace, name, args, expand_final } => {
                let (r, calls) = rewritten_all(w, args, s, b);
                RewriteView {
                    expr: match r {
                        Ok(items) => Ok(ExprView::FuncCall { namespace, name, args: items, expand_final }),
                        Err(m) => Err(m),
                    },
                    file_calls: calls,
                }
            },
            ExprView::Array(items) => {
                let (r, calls) = rewritten_all(w, items, s, b);
                RewriteView {
                    expr: match r {
                        Ok(done) => Ok(ExprView::Array(done)),
                        Err(m) => Err(m),
                    },
                    file_calls: calls,
                }
            },
            ExprView::Object(items) => {
                let (r, calls) = rewritten_items(w, items, s, b);
                RewriteView {
                    expr: match r {
                        Ok(done) => Ok(ExprView::Object(done)),
                        Err(m) => Err(m),
                    },
                    file_calls: calls,
                }
            },
            ExprView::Traversal { expr, operators } => {
                let r = rewritten(w, *expr, s, b);
                RewriteView {
                    expr: match r.expr {
                        Ok(x) => Ok(ExprView::Traversal { expr: Box::new(x), operators }),
                        Err(m) => Err(m),
                    },
                    file_calls: r.file_calls,
                }
            },
            ExprView::Parenthesis(x) => {
                let r = rewritten(w, *x, s, b);
                RewriteView {
                    expr: match r.expr {
                        Ok(y) => Ok(ExprView::Parenthesis(Box::new(y))),
                        Err(m) => Err(m),
                    },
                    file_calls: r.file_calls,
                }
            },
            ExprView::Conditional { cond, yes, no } => {
                let c = rewritten(w, *cond, s, b);
                match c.expr {
                    Err(_) => c,
                    Ok(x) => {
                        let y = rewritten(w, *yes, s, b);
                        match y.expr {
                            Err(_) => follow(c.file_calls, y),
                            Ok(u) => {
                                let n = rewritten(w, *no, s, b);
                                follow(
                                    c.file_calls + y.file_calls,
                                    RewriteView {
                                        expr: match n.expr {
                                            Ok(v) => Ok(
                                                ExprView::Conditional {
                                                    cond: Box::new(x),
                                                    yes: Box::new(u),
                                                    no: Box::new(v),
                                                },
                                            ),
                                            Err(m) => Err(m),
                                        },
                                        file_calls: n.file_calls,
                                    },
                                )
                            },
                        }
                    },
                }
            },
            ExprView::Unary { operator, expr } => {
                let r = rewritten(w, *expr, s, b);
                RewriteView {
                    expr: match r.expr {
                        Ok(x) => Ok(ExprView::Unary { operator, expr: Box::new(x) }),
                        Err(m) => Err(m),
                    },
                    file_calls: r.file_calls,
                }
            },
            ExprView::Binary { lhs, operator, rhs } => {
                let l = rewritten(w, *lhs, s, b);
                match l.expr {
                    Err(_) => l,
                    Ok(x) => {
                        let r = rewritten(w, *rhs, s, b);
                        follow(
                            l.file_calls,
                            RewriteView {
                                expr: match r.expr {
                                    Ok(y) => Ok(ExprView::Binary { lhs: Box::new(x), operator, rhs: Box::new(y) }),
                                    Err(m) => Err(m),
                                },
                                file_calls: r.file_calls,
                            },
                        )
                    },
                }
            },
            _ => RewriteView { expr: Ok(e), file_calls: Seq::empty() },
        }
    }
}

/// The parts of a list, rewritten from the left up to the first failure, and what was called.
pub open spec fn rewritten_all(
    w: World,
    items: Seq<ExprView>,
    s: ScopeView,
    b: BindingsView,
) -> (Result<Seq<ExprView>, Seq<char>>, Seq<Seq<char>>)
    decreases items, 0int, 0int,
{
    if items.len() == 0 {
        (Ok(Seq::empty()), Seq::empty())
    } else {
        proof {
            assert(decreases_to!(items => items.drop_last()));
            assert(decreases_to!(items => items[items.len() - 1]));
        }
        let (before, calls) = rewritten_all(w, items.drop_last(), s, b);
        match before {
            Err(m) => (Err(m), calls),
            Ok(done) => {
                let r = rewritten(w, items.last(), s, b);
                (
                    match r.expr {
                        Ok(x) => Ok(done.push(x)),
                        Err(m) => Err(m),
                    },
                    calls + r.file_calls,
                )
            },
        }
    }
}

/// The items, with `key` standing for `value`: in its place where it is there, else at the end.
pub open spec fn with_item(
    items: Seq<(KeyView, ExprView)>,
    key: KeyView,
    value: ExprView,
) -> Seq<(KeyView, ExprView)>
    decreases items.len(),
{
    if items.len() == 0 {
        seq![(key, value)]
    } else if items[0].0 == key {
        items.update(0, (key, value))
    } else {
        seq![items[0]] + with_item(items.skip(1), key, value)
    }
}

/// The items of an object, rewritten from the left up to the first failure, and what was called.
pub open spec fn rewritten_items(
    w: World,
    items: Seq<(KeyView, ExprView)>,
    s: ScopeView,
    b: BindingsView,
) -> (Result<Seq<(KeyView, ExprView)>, Seq<char>>, Seq<Seq<char>>)
    decreases items, 0int, 0int,
{
    if items.len() == 0 {
        (Ok(Seq::empty()), Seq::empty())
    } else {
        proof {
            assert(decreases_to!(items => items.drop_last()));
            assert(decreases_to!(items => items[items.len() - 1]));
            assert(decreases_to!(items.last() => items.last().0));
            assert(decreases_to!(items.last() => items.last().1));
            assert(items.last().0 is Expression ==> decreases_to!(items.last().0 => items.last().0->Expression_0));
        }
        let (before, calls) = rewritten_items(w, items.drop_last(), s, b);
        match before {
            Err(m) => (Err(m), calls),
            Ok(done) => {
                let k = match items.last().0 {
                    KeyView::Expression(x) => rewritten(w, x, s, b),
                    KeyView::Identifier(_) => RewriteView { expr: Ok(ExprView::Null), file_calls: Seq::empty() },
                };
                match k.expr {
                    Err(m) => (Err(m), calls + k.file_calls),
                    Ok(x) => {
                        let key = match items.last().0 {
                            KeyView::Expression(_) => KeyView::Expression(x),
                            KeyView::Identifier(t) => KeyView::Identifier(t),
                        };
                        let v = rewritten(w, items.last().1, s, b);
                        (
                            match v.expr {
                                Ok(y) => Ok(with_item(done, key, y)),
                                Err(m) => Err(m),
                            },
                            calls + k.file_calls + v.file_calls,
                        )
                    },
                }
            },
        }
    }
}

// -------------------------------------------------------------- what is asked for

/// Evaluating `e` as it stands asks for `q`.
pub open spec fn plainly_asks(e: ExprView, s: ScopeView, b: BindingsView, q: QueryView) -> bool {
    q == QueryView::Evaluate(request_of(e, s, b))
}

/// Evaluating `e` with lazy `try` asks for `q`.
pub open spec fn lazy_asks(w: World, e: ExprView, s: ScopeView, b: BindingsView, q: QueryView) -> bool
    decreases e, own_rank(e), 0int,
{
    if b.len() == 0 && !has_try(e) {
        plainly_asks(e, s, b, q)
    } else if is_try(e) {
        try_asks(w, e->args, s, b, 0, q)
    } else if e is For {
        lazy_asks(w, *e->collection, s, b, q) || match lazily(w, *e->collection, s, b).result {
            Ok(v) => match pairs_of(v) {
                Some(pairs) => turn_asks(w, e, s, b, pairs, 0, q),
                None => false,
            },
            Err(_) => false,
        }
    } else {
        rewrite_asks(w, e, s, b, q) || match rewritten(w, e, s, b).expr {
            Ok(x) => plainly_asks(x, s, b, q),
            Err(_) => false,
        }
    }
}

/// The arguments of a `try` from position `k` on ask for `q`: those up to the first success.
pub open spec fn try_asks(
    w: World,
    args: Seq<ExprView>,
    s: ScopeView,
    b: BindingsView,
    k: int,
    q: QueryView,
) -> bool
    decreases args, 0int, args.len() - k,
{
    if k < 0 || k >= args.len() {
        false
    } else {
        proof {
            assert(decreases_to!(args => args[k]));
        }
        lazy_asks(w, args[k], s, b, q) || match lazily(w, args[k], s, b).result {
            Ok(ValueView::Null) => try_asks(w, args, s, b, k + 1, q),
            Ok(_) => false,
            Err(_) => try_asks(w, args, s, b, k + 1, q),
        }
    }
}

/// The turns of a `for` expression from position `k` on ask for `q`.
pub open spec fn turn_asks(
    w: World,
    e: ExprView,
    s: ScopeView,
    b: BindingsView,
    pairs: Seq<(ValueView, ValueView)>,
    k: int,
    q: QueryView,
) -> bool
    decreases e, 0int, pairs.len() - k,
{
    if k < 0 || k >= pairs.len() || !(e is For) {
        false
    } else {
        let inner = bind(b, e->key_var, e->value_var, pairs[k]);
        let c = match e->For_cond {
            Some(cond) => lazily(w, *cond, s, inner),
            None => plain(ValueView::Bool(true)),
        };
        (e->For_cond is Some && lazy_asks(w, *e->For_cond->0, s, inner, q)) || match c.result {
            Ok(ValueView::Bool(false)) => turn_asks(w, e, s, b, pairs, k + 1, q),
            Ok(ValueView::Bool(true)) => lazy_asks(w, *e->value, s, inner, q) || (lazily(w, *e->value, s, inner).result is Ok
                && match e->key {
                None => turn_asks(w, e, s, b, pairs, k + 1, q),
                Some(key) => lazy_asks(w, *key, s, inner, q) || match lazily(w, *key, s, inner).result {
                    Ok(y) => key_text(y) is Some && turn_asks(w, e, s, b, pairs, k + 1, q),
                    Err(_) => false,
                },
            }),
            _ => false,
        }
    }
}

/// Rewriting `e` asks for `q`.
pub open spec fn rewrite_asks(w: World, e: ExprView, s: ScopeView, b: BindingsView, q: QueryView) -> bool
    decreases e, 2int, 0int,
{
    if b.len() == 0 && !has_try(e) {
        false
    } else if is_try(e) || e is For {
        lazy_asks(w, e, s, b, q)
    } else {
        match e {
            ExprView::FuncCall { namespace, name, args, expand_final } => list_asks(w, args, s, b, q),
            ExprView::Array(items) => list_asks(w, items, s, b, q),
            ExprView::Object(items) => items_ask(w, items, s, b, q),
            ExprView::Traversal { expr, operators } => rewrite_asks(w, *expr, s, b, q),
            ExprView::Parenthesis(x) => rewrite_asks(w, *x, s, b, q),
            ExprView::Conditional { cond, yes, no } => rewrite_asks(w, *cond, s, b, q) || (rewritten(w, *cond, s, b).expr is Ok
                && (rewrite_asks(w, *yes, s, b, q) || (rewritten(w, *yes, s, b).expr is Ok && rewrite_asks(
                w,
                *no,
                s,
                b,
                q,
            )))),
            ExprView::Unary { operator, expr } => rewrite_asks(w, *expr, s, b, q),
            ExprView::Binary { lhs, operator, rhs } => rewrite_asks(w, *lhs, s, b, q) || (rewritten(w, *lhs, s, b).expr is Ok
                && rewrite_asks(w, *rhs, s, b, q)),
            _ => false,
        }
    }
}

/// Rewriting the parts of a list asks for `q`.
pub open spec fn list_asks(w: World, items: Seq<ExprView>, s: ScopeView, b: BindingsView, q: QueryView) -> bool
    decreases items, 0int, 0int,
{
    if items.len() == 0 {
        false
    } else {
        proof {
            assert(decreases_to!(items => items.drop_last()));
            assert(decreases_to!(items => items[items.len() - 1]));
        }
        list_asks(w, items.drop_last(), s, b, q) || (rewritten_all(w, items.drop_last(), s, b).0 is Ok && rewrite_asks(
            w,
            items.last(),
            s,
            b,
            q,
        ))
    }
}

/// Rewriting the items of an object asks for `q`.
pub open spec fn items_ask(
    w: World,
    items: Seq<(KeyView, ExprView)>,
    s: ScopeView,
    b: BindingsView,
    q: QueryView,
) -> bool
    decreases items, 0int, 0int,
{
    if items.len() == 0 {
        false
    } else {
        proof {
            assert(decreases_to!(items => items.drop_last()));
            assert(decreases_to!(items => items[items.len() - 1]));
            assert(decreases_to!(items.last() => items.last().0));
            assert(decreases_to!(items.last() => items.last().1));
            assert(items.last().0 is Expression ==> decreases_to!(items.last().0 => items.last().0->Expression_0));
        }
        items_ask(w, items.drop_last(), s, b, q) || (rewritten_items(w, items.drop_last(), s, b).0 is Ok
            && match items.last().0 {
            KeyView::Expression(x) => rewrite_asks(w, x, s, b, q) || (rewritten(w, x, s, b).expr is Ok && rewrite_asks(
                w,
                items.last().1,
                s,
                b,
                q,
            )),
            KeyView::Identifier(_) => rewrite_asks(w, items.last().1, s, b, q),
        })
    }
}

/// What a part of a list asks for, the list asks for.
proof fn lemma_list_asks(w: World, items: Seq<ExprView>, s: ScopeView, b: BindingsView, k: int, q: QueryView)
    requires
        0 <= k <= items.len(),
        list_asks(w, items.take(k), s, b, q),
    ensures
        list_asks(w, items, s, b, q),
    decreases items.len(),
{
    if k == items.len() {
        assert(items.take(k) =~= items);
    } else {
        assert(items.drop_last().take(k) =~= items.take(k));
        lemma_list_asks(w, items.drop_last(), s, b, k, q);
    }
}

proof fn lemma_items_ask(w: World, items: Seq<(KeyView, ExprView)>, s: ScopeView, b: BindingsView, k: int, q: QueryView)
    requires
        0 <= k <= items.len(),
        items_ask(w, items.take(k), s, b, q),
    ensures
        items_ask(w, items, s, b, q),
    decreases items.len(),
{
    if k == items.len() {
        assert(items.take(k) =~= items);
    } else {
        assert(items.drop_last().take(k) =~= items.take(k));
        lemma_items_ask(w, items.drop_last(), s, b, k, q);
    }
}

// ------------------------------------------------------------------- small steps

proof fn lemma_after(a: Seq<Seq<char>>, b: Seq<Seq<char>>, x: AnswerView)
    ensures
        after(a, after(b, x)) == after(a + b, x),
        after(Seq::empty(), x) == x,
{
    assert(a + (b + x.file_calls) =~= a + b + x.file_calls);
    assert(Seq::<Seq<char>>::empty() + x.file_calls =~= x.file_calls);
}

/// An answer, behind what was called before.
fn behind(calls: Vec<String>, a: Answer) -> (res: Answer)
    ensures
        res@ == after(texts(calls@), a@),
{
    let mut all = calls;
    let mut more = a.file_calls;
    let ghost before = texts(all@);
    let ghost added = texts(more@);
    all.append(&mut more);
    assert(texts(all@) =~= before + added);
    Answer { result: a.result, file_calls: all }
}

/// The calls, with more behind them.
fn add_calls(calls: &mut Vec<String>, more: Vec<String>)
    ensures
        texts(final(calls)@) == texts(old(calls)@) + texts(more@),
{
    let mut rest = more;
    let ghost added = texts(rest@);
    calls.append(&mut rest);
    assert(texts(calls@) =~= texts(old(calls)@) + added);
}

fn no_calls() -> (res: Vec<String>)
    ensures
        texts(res@) == Seq::<Seq<char>>::empty(),
{
    let res: Vec<String> = Vec::new();
    assert(texts(res@) =~= Seq::empty());
    res
}

fn failing_answer(prefix: &str, v: &HclValue) -> (res: Answer)
    ensures
        res@ == failing(prefix@ + debug_text(v@)),
{
    let mut message = prefix.to_owned();
    put_debug(&mut message, v);
    Answer { result: Err(message), file_calls: no_calls() }
}

/// Asks for the evaluation of an expression as it stands.
fn ask_for(facts: &Facts, expr: &Expr, scope: &Scope, bindings: &Vec<(String, HclValue)>) -> (res: Step<Answer>)
    ensures
        match res {
            Step::Done(a) => forall|w: World| #[trigger]
                facts.agrees(w) ==> a@ == ask(w, expr@, scope@, entry_views(bindings@)),
            Step::Need(q) => !facts.knows(q@) && plainly_asks(expr@, scope@, entry_views(bindings@), q@),
        },
{
    let inner = copy_entries(bindings);
    assert(entry_views(inner@) =~= entry_views(bindings@));
    let request = Request {
        expr: copy_expr(expr),
        values: copy_value(&scope.values),
        locals: copy_value(&scope.locals),
        bindings: inner,
        terragrunt_dir: scope.terragrunt_dir.clone(),
        parent_dir: clone_opt(&scope.parent_dir),
        strict: scope.strict,
    };
    match facts.evaluate(request) {
        Step::Done(a) => Step::Done(Answer { result: copy_result(&a.result), file_calls: clone_texts(&a.file_calls) }),
        Step::Need(q) => Step::Need(q),
    }
}

/// The expression that stands for a value.
pub fn literal_of(v: &HclValue) -> (res: Expr)
    ensures
        res@ == literal(v@),
    decreases v,
{
    match v {
        HclValue::Null => Expr::Null,
        HclValue::Bool(b) => Expr::Bool(*b),
        HclValue::Number(n) => Expr::Number(n.clone()),
        HclValue::String(t) => Expr::String(t.clone()),
        HclValue::Array(items) => {
            let mut out: Vec<Expr> = Vec::new();
            let mut i: usize = 0;
            while i < items.len()
                invariant
                    i <= items@.len(),
                    out@.len() == i,
                    forall|j: int| 0 <= j < i ==> (#[trigger] out@[j])@ == literal(items@[j]@),
                    *v is Array,
                    *items == v->Array_0,
                decreases items@.len() - i,
            {
                assert(decreases_to!(v => items));
                assert(decreases_to!(items => items@[i as int]));
                let e = literal_of(&items[i]);
                out.push(e);
                i += 1;
            }
            let res = Expr::Array(out);
            assert(res@->Array_0 =~= literal(v@)->Array_0);
            res
        },
        HclValue::Object(items) => {
            let mut out: Vec<(ObjectKey, Expr)> = Vec::new();
            let mut i: usize = 0;
            while i < items.len()
                invariant
                    i <= items@.len(),
                    out@.len() == i,
                    forall|j: int|
                        0 <= j < i ==> ((#[trigger] out@[j]).0@, out@[j].1@) == (
                            KeyView::Expression(ExprView::String(items@[j].0@)),
                            literal(items@[j].1@),
                        ),
                    *v is Object,
                    *items == v->Object_0,
                decreases items@.len() - i,
            {
                assert(decreases_to!(v => items));
                assert(decreases_to!(items => items@[i as int]));
                assert(decreases_to!(items@[i as int] => items@[i as int].1));
                let e = literal_of(&items[i].1);
                out.push((ObjectKey::Expression(Expr::String(items[i].0.clone())), e));
                i += 1;
            }
            let res = Expr::Object(out);
            assert(res@->Object_0 =~= literal(v@)->Object_0);
            res
        },
    }
}

spec fn pair_views(pairs: Seq<(HclValue, HclValue)>) -> Seq<(ValueView, ValueView)> {
    pairs.map_values(|p: (HclValue, HclValue)| (p.0@, p.1@))
}

fn get_pairs(v: &HclValue) -> (res: Option<Vec<(HclValue, HclValue)>>)
    ensures
        match res {
            Some(pairs) => pairs_of(v@) == Some(pair_views(pairs@)),
            None => pairs_of(v@) is None,
        },
{
    let mut out: Vec<(HclValue, HclValue)> = Vec::new();
    let mut i: usize = 0;
    match v {
        HclValue::Array(items) => {
            while i < items.len()
                invariant
                    i <= items@.len(),
                    out@.len() == i,
                    forall|j: int|
                        0 <= j < i ==> ((#[trigger] out@[j]).0@, out@[j].1@) == (
                            ValueView::Number(NumberView::PosInt(j as u64)),
                            items@[j]@,
                        ),
                decreases items@.len() - i,
            {
                let item = copy_value(&items[i]);
                out.push((HclValue::Number(Number::PosInt(i as u64)), item));
                i += 1;
            }
            assert(pair_views(out@) =~= pairs_of(v@)->0);
            Some(out)
        },
        HclValue::Object(items) => {
            while i < items.len()
                invariant
                    i <= items@.len(),
                    out@.len() == i,
                    forall|j: int|
                        0 <= j < i ==> ((#[trigger] out@[j]).0@, out@[j].1@) == (
                            ValueView::String(items@[j].0@),
                            items@[j].1@,
                        ),
                decreases items@.len() - i,
            {
                let item = copy_value(&items[i].1);
                out.push((HclValue::String(items[i].0.clone()), item));
                i += 1;
            }
            assert(pair_views(out@) =~= pairs_of(v@)->0);
            Some(out)
        },
        _ => None,
    }
}

fn bind_turn(
    bindings: &Vec<(String, HclValue)>,
    key_var: &Option<String>,
    value_var: &String,
    pair: &(HclValue, HclValue),
) -> (res: Vec<(String, HclValue)>)
    ensures
        entry_views(res@) == bind(entry_views(bindings@), opt_text(*key_var), value_var@, (pair.0@, pair.1@)),
{
    let mut out = copy_entries(bindings);
    let ghost base = entry_views(bindings@);
    assert(entry_views(out@) =~= base);
    match key_var {
        Some(k) => {
            let ghost before = out@;
            out.push((k.clone(), copy_value(&pair.0)));
            assert(entry_views(out@) =~= base.push((k@, pair.0@)));
        },
        None => {},
    }
    let ghost before = entry_views(out@);
    out.push((value_var.clone(), copy_value(&pair.1)));
    assert(entry_views(out@) =~= before.push((value_var@, pair.1@)));
    out
}

fn get_key_text(v: &HclValue) -> (res: Option<String>)
    ensures
        opt_text(res) == key_text(v@),
{
    match v {
        HclValue::String(t) => Some(t.clone()),
        HclValue::Bool(b) => Some(show_bool(*b)),
        HclValue::Number(n) => Some(show_number(n)),
        _ => None,
    }
}

fn put_grouped(items: &mut Vec<(String, HclValue)>, key: String, value: HclValue)
    ensures
        entry_views(final(items)@) == with_grouped(entry_views(old(items)@), key@, value@),
{
    let mut group: Vec<HclValue> = Vec::new();
    let ghost v = value@;
    let ghost mut base: Seq<ValueView> = Seq::empty();
    match crate::builtins::get_entry(items, key.as_str()) {
        Some(HclValue::Array(old_group)) => {
            group = crate::syntax::copy_values(old_group);
            proof {
                lemma_array_view(*old_group);
                assert(value_views(group@) =~= value_views(old_group@));
                base = value_views(old_group@);
            }
        },
        _ => {
            assert(value_views(group@) =~= Seq::empty());
        },
    }
    group.push(value);
    proof {
        lemma_array_view(group);
        assert(value_views(group@) =~= base.push(v));
        assert(base.push(v) =~= base + seq![v]);
        if base.len() == 0 {
            assert(base.push(v) =~= seq![v]);
        }
    }
    put_entry(items, key, HclValue::Array(group));
}

/// What a `for` expression has collected, with one value more.
fn put_collected(acc: HclValue, key: Option<String>, value: HclValue, grouping: bool) -> (res: HclValue)
    ensures
        res@ == collect(acc@, opt_text(key), value@, grouping),
{
    match (acc, key) {
        (HclValue::Array(items), None) => {
            let mut all = items;
            let ghost before = value_views(all@);
            proof {
                lemma_array_view(all);
            }
            all.push(value);
            proof {
                lemma_array_view(all);
                assert(value_views(all@) =~= before.push(value@));
            }
            HclValue::Array(all)
        },
        (HclValue::Object(items), Some(k)) => {
            let mut all = items;
            proof {
                lemma_object_view(all);
            }
            if grouping {
                put_grouped(&mut all, k, value);
            } else {
                put_entry(&mut all, k, value);
            }
            proof {
                lemma_object_view(all);
            }
            HclValue::Object(all)
        },
        (other, _) => other,
    }
}

spec fn item_views(items: Seq<(ObjectKey, Expr)>) -> Seq<(KeyView, ExprView)> {
    items.map_values(|p: (ObjectKey, Expr)| (p.0@, p.1@))
}

fn same_key(a: &ObjectKey, b: &ObjectKey) -> (res: bool)
    ensures
        res == (a@ == b@),
{
    match (a, b) {
        (ObjectKey::Identifier(x), ObjectKey::Identifier(y)) => *x == *y,
        (ObjectKey::Expression(x), ObjectKey::Expression(y)) => same_expr(x, y),
        _ => false,
    }
}

pub proof fn lemma_with_item_at(items: Seq<(KeyView, ExprView)>, k: int, key: KeyView, value: ExprView)
    requires
        0 <= k <= items.len(),
        forall|j: int| 0 <= j < k ==> (#[trigger] items[j]).0 != key,
        k < items.len() ==> items[k].0 == key,
    ensures
        with_item(items, key, value) == (if k < items.len() {
            items.update(k, (key, value))
        } else {
            items.push((key, value))
        }),
    decreases items.len(),
{
    if items.len() == 0 {
        assert(items.push((key, value)) =~= seq![(key, value)]);
    } else if k > 0 {
        assert(items[0].0 != key);
        assert forall|j: int| 0 <= j < k - 1 implies (#[trigger] items.skip(1)[j]).0 != key by {
            assert(items.skip(1)[j] == items[j + 1]);
        }
        lemma_with_item_at(items.skip(1), k - 1, key, value);
        if k < items.len() {
            assert(items.update(k, (key, value)) =~= seq![items[0]] + items.skip(1).update(k - 1, (key, value)));
        } else {
            assert(items.push((key, value)) =~= seq![items[0]] + items.skip(1).push((key, value)));
        }
    }
}

fn put_item(items: &mut Vec<(ObjectKey, Expr)>, key: ObjectKey, value: Expr)
    ensures
        item_views(final(items)@) == with_item(item_views(old(items)@), key@, value@),
{
    let ghost views = item_views(items@);
    let mut i: usize = 0;
    while i < items.len() && !same_key(&items[i].0, &key)
        invariant
            i <= items@.len(),
            items@ == old(items)@,
            views == item_views(items@),
            forall|j: int| 0 <= j < i ==> (#[trigger] views[j]).0 != key@,
        decreases items@.len() - i,
    {
        assert(views[i as int].0 == items@[i as int].0@);
        i += 1;
    }
    let ghost k = key@;
    let ghost v = value@;
    proof {
        if i < items@.len() {
            assert(views[i as int].0 == items@[i as int].0@);
        }
        lemma_with_item_at(views, i as int, k, v);
    }
    if i < items.len() {
        items.set(i, (key, value));
        assert(item_views(items@) =~= views.update(i as int, (k, v)));
    } else {
        items.push((key, value));
        assert(item_views(items@) =~= views.push((k, v)));
    }
}

// ----------------------------------------------------------------- lazy evaluation

/// An expression that can be evaluated as it stands, and what was called to get there.
pub struct Rewrite {
    pub expr: Result<Expr, String>,
    pub file_calls: Vec<String>,
}

impl Rewrite {
    pub open spec fn view(&self) -> RewriteView {
        RewriteView {
            expr: match self.expr {
                Ok(e) => Ok(e@),
                Err(m) => Err(m@),
            },
            file_calls: texts(self.file_calls@),
        }
    }
}

/// Evaluates an expression with lazy `try`, as far as the facts reach.
pub fn eval_lazy(facts: &Facts, expr: &Expr, scope: &Scope, bindings: &Vec<(String, HclValue)>) -> (res: Step<Answer>)
    ensures
        match res {
            Step::Done(a) => forall|w: World| #[trigger]
                facts.agrees(w) ==> a@ == lazily(w, expr@, scope@, entry_views(bindings@)),
            Step::Need(q) => !facts.knows(q@) && forall|w: World| #[trigger] facts.agrees(w) ==> lazy_asks(
                w,
                expr@,
                scope@,
                entry_views(bindings@),
                q@,
            ),
        },
    decreases expr, own_rank(expr@), 0int,
{
    if bindings.len() == 0 && !contains_try(expr) {
        return ask_for(facts, expr, scope, bindings);
    }
    if is_bare_try(expr) {
        match expr {
            Expr::FuncCall { namespace, name, args, expand_final } => {
                assert(expr@->args =~= expr_views(args@));
                return eval_try(facts, args, scope, bindings);
            },
            _ => {},
        }
    }
    match expr {
        Expr::For { key_var, value_var, collection, key, value, grouping, cond } => {
            return eval_for_expr(facts, expr, scope, bindings);
        },
        _ => {},
    }
    match rewrite_try(facts, expr, scope, bindings) {
        Step::Need(q) => Step::Need(q),
        Step::Done(r) => match r.expr {
            Err(m) => Step::Done(Answer { result: Err(m), file_calls: r.file_calls }),
            Ok(x) => match ask_for(facts, &x, scope, bindings) {
                Step::Need(q) => Step::Need(q),
                Step::Done(a) => Step::Done(behind(r.file_calls, a)),
            },
        },
    }
}

/// Evaluates the arguments of a `try` one by one.
fn eval_try(facts: &Facts, args: &Vec<Expr>, scope: &Scope, bindings: &Vec<(String, HclValue)>) -> (res: Step<Answer>)
    ensures
        match res {
            Step::Done(a) => forall|w: World| #[trigger]
                facts.agrees(w) ==> a@ == tries(w, expr_views(args@), scope@, entry_views(bindings@), 0, false, None),
            Step::Need(q) => !facts.knows(q@) && forall|w: World| #[trigger] facts.agrees(w) ==> try_asks(
                w,
                expr_views(args@),
                scope@,
                entry_views(bindings@),
                0,
                q@,
            ),
        },
    decreases args, 0int, 0int,
{
    let ghost views = expr_views(args@);
    let ghost s = scope@;
    let ghost b = entry_views(bindings@);
    let mut calls = no_calls();
    let mut was_null = false;
    let mut failure: Option<String> = None;
    let mut k: usize = 0;
    proof {
        assert forall|w: World| #[trigger] facts.agrees(w) implies tries(w, views, s, b, 0, false, None) == after(
            texts(calls@),
            tries(w, views, s, b, k as int, was_null, opt_text(failure)),
        ) by {
            lemma_after(Seq::empty(), Seq::empty(), tries(w, views, s, b, 0, false, None));
        }
    }
    while k < args.len()
        invariant
            k <= args@.len(),
            views == expr_views(args@),
            s == scope@,
            b == entry_views(bindings@),
            forall|w: World| #[trigger]
                facts.agrees(w) ==> tries(w, views, s, b, 0, false, None) == after(
                    texts(calls@),
                    tries(w, views, s, b, k as int, was_null, opt_text(failure)),
                ),
            forall|w: World, q: QueryView| #[trigger]
                facts.agrees(w) && #[trigger] try_asks(w, views, s, b, k as int, q) ==> try_asks(w, views, s, b, 0, q),
        decreases args@.len() - k,
    {
        assert(decreases_to!(args => args@[k as int]));
        assert(views[k as int] == args@[k as int]@);
        let a = match eval_lazy(facts, &args[k], scope, bindings) {
            Step::Need(q) => {
                proof {
                    assert forall|w: World| #[trigger] facts.agrees(w) implies try_asks(w, views, s, b, 0, q@) by {
                        assert(try_asks(w, views, s, b, k as int, q@));
                    }
                }
                return Step::Need(q);
            },
            Step::Done(a) => a,
        };
        let ghost before = texts(calls@);
        let ghost was = was_null;
        let ghost failed = opt_text(failure);
        let ghost got = a@;
        match a.result {
            Ok(HclValue::Null) => {
                add_calls(&mut calls, a.file_calls);
                was_null = true;
                proof {
                    assert forall|w: World| #[trigger] facts.agrees(w) implies tries(w, views, s, b, 0, false, None)
                        == after(texts(calls@), tries(w, views, s, b, k + 1, was_null, opt_text(failure))) by {
                        lemma_after(before, got.file_calls, tries(w, views, s, b, k + 1, true, failed));
                    }
                    assert forall|w: World, q: QueryView| #[trigger]
                        facts.agrees(w) && #[trigger] try_asks(w, views, s, b, k + 1, q) implies try_asks(w, views, s, b, 0, q) by {
                        assert(try_asks(w, views, s, b, k as int, q));
                    }
                }
            },
            Ok(v) => {
                assert(!(v@ is Null));
                return Step::Done(behind(calls, Answer { result: Ok(v), file_calls: a.file_calls }));
            },
            Err(m) => {
                add_calls(&mut calls, a.file_calls);
                failure = Some(m);
                proof {
                    assert forall|w: World| #[trigger] facts.agrees(w) implies tries(w, views, s, b, 0, false, None)
                        == after(texts(calls@), tries(w, views, s, b, k + 1, was_null, opt_text(failure))) by {
                        lemma_after(before, got.file_calls, tries(w, views, s, b, k + 1, was, opt_text(failure)));
                    }
                    assert forall|w: World, q: QueryView| #[trigger]
                        facts.agrees(w) && #[trigger] try_asks(w, views, s, b, k + 1, q) implies try_asks(w, views, s, b, 0, q) by {
                        assert(try_asks(w, views, s, b, k as int, q));
                    }
                }
            },
        }
        k += 1;
    }
    let ghost before = texts(calls@);
    let result = if was_null {
        Ok(HclValue::Null)
    } else {
        match failure {
            Some(m) => Err(m),
            None => Err("try: no arguments".to_owned()),
        }
    };
    assert("try: no arguments"@ + ""@ =~= "try: no arguments"@) by {
        reveal_strlit("");
    }
    assert(before + Seq::<Seq<char>>::empty() =~= before);
    Step::Done(Answer { result, file_calls: calls })
}

/// Evaluates a `for` expression.
fn eval_for_expr(facts: &Facts, expr: &Expr, scope: &Scope, bindings: &Vec<(String, HclValue)>) -> (res: Step<Answer>)
    requires
        expr@ is For,
        bindings@.len() > 0 || has_try(expr@),
    ensures
        match res {
            Step::Done(a) => forall|w: World| #[trigger]
                facts.agrees(w) ==> a@ == lazily(w, expr@, scope@, entry_views(bindings@)),
            Step::Need(q) => !facts.knows(q@) && forall|w: World| #[trigger] facts.agrees(w) ==> lazy_asks(
                w,
                expr@,
                scope@,
                entry_views(bindings@),
                q@,
            ),
        },
    decreases expr, 0int, 0int,
{
    let ghost e = expr@;
    let ghost s = scope@;
    let ghost b = entry_views(bindings@);
    match expr {
        Expr::For { key_var, value_var, collection, key, value, grouping, cond } => {
            let c = match eval_lazy(facts, collection, scope, bindings) {
                Step::Need(q) => {
                    return Step::Need(q);
                },
                Step::Done(c) => c,
            };
            let ghost first = c@;
            let source = match c.result {
                Err(m) => {
                    return Step::Done(Answer { result: Err(m), file_calls: c.file_calls });
                },
                Ok(v) => v,
            };
            let pairs = match get_pairs(&source) {
                None => {
                    let failed = failing_answer("for: expected array or object, got ", &source);
                    return Step::Done(behind(c.file_calls, failed));
                },
                Some(pairs) => pairs,
            };
            let ghost all = pair_views(pairs@);
            let mut calls = c.file_calls;
            let mut acc = match key {
                Some(_) => {
                    let empty: Vec<(String, HclValue)> = Vec::new();
                    proof {
                        lemma_object_view(empty);
                        assert(entry_views(empty@) =~= Seq::empty());
                    }
                    HclValue::Object(empty)
                },
                None => {
                    let empty: Vec<HclValue> = Vec::new();
                    proof {
                        lemma_array_view(empty);
                        assert(value_views(empty@) =~= Seq::empty());
                    }
                    HclValue::Array(empty)
                },
            };
            let ghost start = acc@;
            proof {
                assert forall|w: World| #[trigger] facts.agrees(w) implies lazily(w, e, s, b) == after(
                    texts(calls@),
                    turns(w, e, s, b, all, 0, start),
                ) by {}
            }
            let mut k: usize = 0;
            while k < pairs.len()
                invariant
                    k <= pairs@.len(),
                    all == pair_views(pairs@),
                    e == expr@,
                    s == scope@,
                    b == entry_views(bindings@),
                    *expr == (Expr::For { key_var: *key_var, value_var: *value_var, collection: *collection, key: *key, value: *value, grouping: *grouping, cond: *cond }),
                    forall|w: World| #[trigger]
                        facts.agrees(w) ==> lazily(w, e, s, b) == after(
                            texts(calls@),
                            turns(w, e, s, b, all, k as int, acc@),
                        ),
                    forall|w: World, q: QueryView| #[trigger]
                        facts.agrees(w) && #[trigger] turn_asks(w, e, s, b, all, k as int, q) ==> lazy_asks(w, e, s, b, q),
                decreases pairs@.len() - k,
            {
                assert(all[k as int] == (pairs@[k as int].0@, pairs@[k as int].1@));
                let inner = bind_turn(bindings, key_var, value_var, &pairs[k]);
                let ghost before = texts(calls@);
                let ghost had = acc@;
                let held = match cond {
                    None => Answer { result: Ok(HclValue::Bool(true)), file_calls: no_calls() },
                    Some(x) => match eval_lazy(facts, x, scope, &inner) {
                        Step::Need(q) => {
                            proof {
                                assert forall|w: World| #[trigger] facts.agrees(w) implies lazy_asks(w, e, s, b, q@) by {
                                    assert(turn_asks(w, e, s, b, all, k as int, q@));
                                }
                            }
                            return Step::Need(q);
                        },
                        Step::Done(a) => a,
                    },
                };
                let ghost c1 = held@;
                match held.result {
                    Err(m) => {
                        return Step::Done(behind(calls, Answer { result: Err(m), file_calls: held.file_calls }));
                    },
                    Ok(HclValue::Bool(false)) => {
                        add_calls(&mut calls, held.file_calls);
                        proof {
                            assert forall|w: World| #[trigger] facts.agrees(w) implies lazily(w, e, s, b) == after(
                                texts(calls@),
                                turns(w, e, s, b, all, k + 1, acc@),
                            ) by {
                                lemma_after(before, c1.file_calls, turns(w, e, s, b, all, k + 1, acc@));
                            }
                            assert forall|w: World, q: QueryView| #[trigger]
                                facts.agrees(w) && #[trigger] turn_asks(w, e, s, b, all, k + 1, q) implies lazy_asks(w, e, s, b, q) by {
                                assert(turn_asks(w, e, s, b, all, k as int, q));
                            }
                        }
                        k += 1;
                        continue;
                    },
                    Ok(HclValue::Bool(true)) => {},
                    Ok(other) => {
                        let failed = failing_answer("for: condition must be boolean, got ", &other);
                        let ghost end = failed@;
                        proof {
                            lemma_after(before, c1.file_calls, end);
                        }
                        return Step::Done(behind(calls, behind(held.file_calls, failed)));
                    },
                }
                add_calls(&mut calls, held.file_calls);
                let ghost before2 = texts(calls@);
                let v = match eval_lazy(facts, value, scope, &inner) {
                    Step::Need(q) => {
                        proof {
                            assert forall|w: World| #[trigger] facts.agrees(w) implies lazy_asks(w, e, s, b, q@) by {
                                assert(turn_asks(w, e, s, b, all, k as int, q@));
                            }
                        }
                        return Step::Need(q);
                    },
                    Step::Done(v) => v,
                };
                let ghost c2 = v@;
                let x = match v.result {
                    Err(m) => {
                        let failed = Answer { result: Err(m), file_calls: v.file_calls };
                        proof {
                            lemma_after(before, c1.file_calls, failed@);
                        }
                        return Step::Done(behind(calls, failed));
                    },
                    Ok(x) => x,
                };
                add_calls(&mut calls, v.file_calls);
                let ghost before3 = texts(calls@);
                let ghost both = c1.file_calls + c2.file_calls;
                assert(before3 =~= before + both);
                let ghost xv = x@;
                match key {
                    None => {
                        acc = put_collected(acc, None, x, *grouping);
                        proof {
                            assert forall|w: World| #[trigger] facts.agrees(w) implies lazily(w, e, s, b) == after(
                                texts(calls@),
                                turns(w, e, s, b, all, k + 1, acc@),
                            ) by {
                                lemma_after(before, both, turns(w, e, s, b, all, k + 1, acc@));
                            }
                            assert forall|w: World, q: QueryView| #[trigger]
                                facts.agrees(w) && #[trigger] turn_asks(w, e, s, b, all, k + 1, q) implies lazy_asks(w, e, s, b, q) by {
                                assert(turn_asks(w, e, s, b, all, k as int, q));
                            }
                        }
                    },
                    Some(ke) => {
                        let kv = match eval_lazy(facts, ke, scope, &inner) {
                            Step::Need(q) => {
                                proof {
                                    assert forall|w: World| #[trigger] facts.agrees(w) implies lazy_asks(w, e, s, b, q@) by {
                                        assert(turn_asks(w, e, s, b, all, k as int, q@));
                                    }
                                }
                                return Step::Need(q);
                            },
                            Step::Done(kv) => kv,
                        };
                        let ghost c3 = kv@;
                        let y = match kv.result {
                            Err(m) => {
                                let failed = Answer { result: Err(m), file_calls: kv.file_calls };
                                proof {
                                    lemma_after(before, both, failed@);
                                }
                                return Step::Done(behind(calls, failed));
                            },
                            Ok(y) => y,
                        };
                        add_calls(&mut calls, kv.file_calls);
                        let ghost three = both + c3.file_calls;
                        assert(texts(calls@) =~= before + three);
                        match get_key_text(&y) {
                            None => {
                                let failed = failing_answer("for: object key must be string-like, got ", &y);
                                proof {
                                    lemma_after(before, three, failed@);
                                }
                                return Step::Done(behind(calls, failed));
                            },
                            Some(t) => {
                                acc = put_collected(acc, Some(t), x, *grouping);
                                proof {
                                    assert forall|w: World| #[trigger] facts.agrees(w) implies lazily(w, e, s, b)
                                        == after(texts(calls@), turns(w, e, s, b, all, k + 1, acc@)) by {
                                        lemma_after(before, three, turns(w, e, s, b, all, k + 1, acc@));
                                    }
                                    assert forall|w: World, q: QueryView| #[trigger]
                                        facts.agrees(w) && #[trigger] turn_asks(w, e, s, b, all, k + 1, q) implies lazy_asks(w, e, s, b, q) by {
                                        assert(turn_asks(w, e, s, b, all, k as int, q));
                                    }
                                }
                            },
                        }
                    },
                }
                k += 1;
            }
            assert(texts(calls@) + Seq::<Seq<char>>::empty() =~= texts(calls@));
            Step::Done(Answer { result: Ok(acc), file_calls: calls })
        },
        _ => ask_for(facts, expr, scope, bindings),
    }
}

/// Replaces every `try` call and every `for` expression by the literal of its value.
fn rewrite_try(facts: &Facts, expr: &Expr, scope: &Scope, bindings: &Vec<(String, HclValue)>) -> (res: Step<Rewrite>)
    ensures
        match res {
            Step::Done(r) => forall|w: World| #[trigger]
                facts.agrees(w) ==> r@ == rewritten(w, expr@, scope@, entry_views(bindings@)),
            Step::Need(q) => !facts.knows(q@) && forall|w: World| #[trigger] facts.agrees(w) ==> rewrite_asks(
                w,
                expr@,
                scope@,
                entry_views(bindings@),
                q@,
            ),
        },
    decreases expr, 2int, 0int,
{
    if bindings.len() == 0 && !contains_try(expr) {
        return Step::Done(Rewrite { expr: Ok(copy_expr(expr)), file_calls: no_calls() });
    }
    let is_for = match expr {
        Expr::For { key_var, value_var, collection, key, value, grouping, cond } => true,
        _ => false,
    };
    if is_bare_try(expr) || is_for {
        return match eval_lazy(facts, expr, scope, bindings) {
            Step::Need(q) => Step::Need(q),
            Step::Done(a) => Step::Done(
                Rewrite {
                    expr: match a.result {
                        Ok(v) => Ok(literal_of(&v)),
                        Err(m) => Err(m),
                    },
                    file_calls: a.file_calls,
                },
            ),
        };
    }
    match expr {
        Expr::FuncCall { namespace, name, args, expand_final } => {
            assert(expr@->args =~= expr_views(args@));
            match rewrite_list(facts, args, scope, bindings) {
                Step::Need(q) => Step::Need(q),
                Step::Done((r, calls)) => {
                    let done = match r {
                        Ok(items) => {
                            let made = Expr::FuncCall {
                                namespace: clone_texts(namespace),
                                name: name.clone(),
                                args: items,
                                expand_final: *expand_final,
                            };
                            assert(made@->args =~= expr_views(items@));
                            assert(made@->namespace =~= expr@->namespace);
                            Ok(made)
                        },
                        Err(m) => Err(m),
                    };
                    Step::Done(Rewrite { expr: done, file_calls: calls })
                },
            }
        },
        Expr::Array(items) => {
            assert(expr@->Array_0 =~= expr_views(items@));
            match rewrite_list(facts, items, scope, bindings) {
                Step::Need(q) => Step::Need(q),
                Step::Done((r, calls)) => {
                    let done = match r {
                        Ok(items2) => {
                            let made = Expr::Array(items2);
                            assert(made@->Array_0 =~= expr_views(items2@));
                            Ok(made)
                        },
                        Err(m) => Err(m),
                    };
                    Step::Done(Rewrite { expr: done, file_calls: calls })
                },
            }
        },
        Expr::Object(items) => {
            assert(expr@->Object_0 =~= item_views(items@));
            match rewrite_items(facts, items, scope, bindings) {
                Step::Need(q) => Step::Need(q),
                Step::Done((r, calls)) => {
                    let done = match r {
                        Ok(items2) => {
                            let made = Expr::Object(items2);
                            assert(made@->Object_0 =~= item_views(items2@));
                            Ok(made)
                        },
                        Err(m) => Err(m),
                    };
                    Step::Done(Rewrite { expr: done, file_calls: calls })
                },
            }
        },
        Expr::Traversal { expr: x, operators } => match rewrite_try(facts, x, scope, bindings) {
            Step::Need(q) => Step::Need(q),
            Step::Done(r) => {
                let done = match r.expr {
                    Ok(y) => {
                        let ghost yv = y@;
                        let operators2 = crate::syntax::copy_operators(operators);
                        let made = Expr::Traversal { expr: Box::new(y), operators: operators2 };
                        assert(made@->operators =~= expr@->operators);
                        Ok(made)
                    },
                    Err(m) => Err(m),
                };
                Step::Done(Rewrite { expr: done, file_calls: r.file_calls })
            },
        },
        Expr::Parenthesis(x) => match rewrite_try(facts, x, scope, bindings) {
            Step::Need(q) => Step::Need(q),
            Step::Done(r) => {
                let done = match r.expr {
                    Ok(y) => Ok(Expr::Parenthesis(Box::new(y))),
                    Err(m) => Err(m),
                };
                Step::Done(Rewrite { expr: done, file_calls: r.file_calls })
            },
        },
        Expr::Conditional { cond, yes, no } => {
            let c = match rewrite_try(facts, cond, scope, bindings) {
                Step::Need(q) => {
                    return Step::Need(q);
                },
                Step::Done(r) => r,
            };
            let ghost first = c@;
            let x = match c.expr {
                Err(m) => {
                    return Step::Done(Rewrite { expr: Err(m), file_calls: c.file_calls });
                },
                Ok(x) => x,
            };
            let y = match rewrite_try(facts, yes, scope, bindings) {
                Step::Need(q) => {
                    return Step::Need(q);
                },
                Step::Done(r) => r,
            };
            let mut calls = c.file_calls;
            add_calls(&mut calls, y.file_calls);
            let u = match y.expr {
                Err(m) => {
                    return Step::Done(Rewrite { expr: Err(m), file_calls: calls });
                },
                Ok(u) => u,
            };
            match rewrite_try(facts, no, scope, bindings) {
                Step::Need(q) => Step::Need(q),
                Step::Done(r) => {
                    add_calls(&mut calls, r.file_calls);
                    let done = match r.expr {
                        Ok(v) => Ok(Expr::Conditional { cond: Box::new(x), yes: Box::new(u), no: Box::new(v) }),
                        Err(m) => Err(m),
                    };
                    Step::Done(Rewrite { expr: done, file_calls: calls })
                },
            }
        },
        Expr::Unary { operator, expr: x } => match rewrite_try(facts, x, scope, bindings) {
            Step::Need(q) => Step::Need(q),
            Step::Done(r) => {
                let done = match r.expr {
                    Ok(y) => Ok(Expr::Unary { operator: operator.clone(), expr: Box::new(y) }),
                    Err(m) => Err(m),
                };
                Step::Done(Rewrite { expr: done, file_calls: r.file_calls })
            },
        },
        Expr::Binary { lhs, operator, rhs } => {
            let l = match rewrite_try(facts, lhs, scope, bindings) {
                Step::Need(q) => {
                    return Step::Need(q);
                },
                Step::Done(r) => r,
            };
            let x = match l.expr {
                Err(m) => {
                    return Step::Done(Rewrite { expr: Err(m), file_calls: l.file_calls });
                },
                Ok(x) => x,
            };
            match rewrite_try(facts, rhs, scope, bindings) {
                Step::Need(q) => Step::Need(q),
                Step::Done(r) => {
                    let mut calls = l.file_calls;
                    add_calls(&mut calls, r.file_calls);
                    let done = match r.expr {
                        Ok(y) => Ok(Expr::Binary { lhs: Box::new(x), operator: operator.clone(), rhs: Box::new(y) }),
                        Err(m) => Err(m),
                    };
                    Step::Done(Rewrite { expr: done, file_calls: calls })
                },
            }
        },
        _ => Step::Done(Rewrite { expr: Ok(copy_expr(expr)), file_calls: no_calls() }),
    }
}

/// Rewrites the parts of a list from the left, up to the first failure.
fn rewrite_list(facts: &Facts, items: &Vec<Expr>, scope: &Scope, bindings: &Vec<(String, HclValue)>) -> (res: Step<
    (Result<Vec<Expr>, String>, Vec<String>),
>)
    ensures
        match res {
            Step::Done(r) => forall|w: World| #[trigger]
                facts.agrees(w) ==> list_view(r) == rewritten_all(w, expr_views(items@), scope@, entry_views(bindings@)),
            Step::Need(q) => !facts.knows(q@) && forall|w: World| #[trigger] facts.agrees(w) ==> list_asks(
                w,
                expr_views(items@),
                scope@,
                entry_views(bindings@),
                q@,
            ),
        },
    decreases items, 0int, 0int,
{
    let ghost views = expr_views(items@);
    let ghost s = scope@;
    let ghost b = entry_views(bindings@);
    let mut out: Vec<Expr> = Vec::new();
    let mut calls = no_calls();
    let mut i: usize = 0;
    assert(expr_views(out@) =~= Seq::empty());
    assert(views.take(0) =~= Seq::empty());
    while i < items.len()
        invariant
            i <= items@.len(),
            views == expr_views(items@),
            s == scope@,
            b == entry_views(bindings@),
            forall|w: World| #[trigger]
                facts.agrees(w) ==> (Ok::<Seq<ExprView>, Seq<char>>(expr_views(out@)), texts(calls@)) == rewritten_all(
                    w,
                    views.take(i as int),
                    s,
                    b,
                ),
        decreases items@.len() - i,
    {
        let ghost now = views.take(i + 1);
        proof {
            assert(decreases_to!(items => items@[i as int]));
            assert(now.drop_last() =~= views.take(i as int));
            assert(now.last() == items@[i as int]@);
        }
        let r = match rewrite_try(facts, &items[i], scope, bindings) {
            Step::Need(q) => {
                proof {
                    assert forall|w: World| #[trigger] facts.agrees(w) implies list_asks(w, views, s, b, q@) by {
                        assert(list_asks(w, now, s, b, q@));
                        lemma_list_asks(w, views, s, b, i + 1, q@);
                    }
                }
                return Step::Need(q);
            },
            Step::Done(r) => r,
        };
        let ghost got = r@;
        let ghost before = texts(calls@);
        let ghost done = expr_views(out@);
        add_calls(&mut calls, r.file_calls);
        match r.expr {
            Err(m) => {
                proof {
                    assert forall|w: World| #[trigger] facts.agrees(w) implies rewritten_all(w, views, s, b) == (
                        Err::<Seq<ExprView>, Seq<char>>(m@),
                        texts(calls@),
                    ) by {
                        assert(rewritten_all(w, now, s, b).0 == Err::<Seq<ExprView>, Seq<char>>(m@));
                        assert(rewritten_all(w, now, s, b).1 == texts(calls@));
                        lemma_stays_failed(w, views, s, b, i + 1);
                    }
                }
                return Step::Done((Err(m), calls));
            },
            Ok(x) => {
                let ghost xv = x@;
                out.push(x);
                assert(expr_views(out@) =~= done.push(xv));
            },
        }
        i += 1;
    }
    assert(views.take(i as int) =~= views);
    Step::Done((Ok(out), calls))
}

/// What a rewritten list is.
spec fn list_view(r: (Result<Vec<Expr>, String>, Vec<String>)) -> (Result<Seq<ExprView>, Seq<char>>, Seq<Seq<char>>) {
    (
        match r.0 {
            Ok(items) => Ok(expr_views(items@)),
            Err(m) => Err(m@),
        },
        texts(r.1@),
    )
}

/// Once a part has failed, the rest of the list does not matter.
proof fn lemma_stays_failed(w: World, items: Seq<ExprView>, s: ScopeView, b: BindingsView, k: int)
    requires
        0 <= k <= items.len(),
        rewritten_all(w, items.take(k), s, b).0 is Err,
    ensures
        rewritten_all(w, items, s, b) == rewritten_all(w, items.take(k), s, b),
    decreases items.len(),
{
    if k == items.len() {
        assert(items.take(k) =~= items);
    } else {
        assert(items.drop_last().take(k) =~= items.take(k));
        lemma_stays_failed(w, items.drop_last(), s, b, k);
    }
}

/// What rewritten items are.
spec fn items_view(r: (Result<Vec<(ObjectKey, Expr)>, String>, Vec<String>)) -> (
    Result<Seq<(KeyView, ExprView)>, Seq<char>>,
    Seq<Seq<char>>,
) {
    (
        match r.0 {
            Ok(items) => Ok(item_views(items@)),
            Err(m) => Err(m@),
        },
        texts(r.1@),
    )
}

proof fn lemma_items_stay_failed(w: World, items: Seq<(KeyView, ExprView)>, s: ScopeView, b: BindingsView, k: int)
    requires
        0 <= k <= items.len(),
        rewritten_items(w, items.take(k), s, b).0 is Err,
    ensures
        rewritten_items(w, items, s, b) == rewritten_items(w, items.take(k), s, b),
    decreases items.len(),
{
    if k == items.len() {
        assert(items.take(k) =~= items);
    } else {
        assert(items.drop_last().take(k) =~= items.take(k));
        lemma_items_stay_failed(w, items.drop_last(), s, b, k);
    }
}

/// Rewrites the items of an object from the left, up to the first failure.
fn rewrite_items(
    facts: &Facts,
    items: &Vec<(ObjectKey, Expr)>,
    scope: &Scope,
    bindings: &Vec<(String, HclValue)>,
) -> (res: Step<(Result<Vec<(ObjectKey, Expr)>, String>, Vec<String>)>)
    ensures
        match res {
            Step::Done(r) => forall|w: World| #[trigger]
                facts.agrees(w) ==> items_view(r) == rewritten_items(w, item_views(items@), scope@, entry_views(bindings@)),
            Step::Need(q) => !facts.knows(q@) && forall|w: World| #[trigger] facts.agrees(w) ==> items_ask(
                w,
                item_views(items@),
                scope@,
                entry_views(bindings@),
                q@,
            ),
        },
    decreases items, 0int, 0int,
{
    let ghost views = item_views(items@);
    let ghost s = scope@;
    let ghost b = entry_views(bindings@);
    let mut out: Vec<(ObjectKey, Expr)> = Vec::new();
    let mut calls = no_calls();
    let mut i: usize = 0;
    assert(item_views(out@) =~= Seq::empty());
    assert(views.take(0) =~= Seq::empty());
    while i < items.len()
        invariant
            i <= items@.len(),
            views == item_views(items@),
            s == scope@,
            b == entry_views(bindings@),
            forall|w: World| #[trigger]
                facts.agrees(w) ==> (Ok::<Seq<(KeyView, ExprView)>, Seq<char>>(item_views(out@)), texts(calls@))
                    == rewritten_items(w, views.take(i as int), s, b),
        decreases items@.len() - i,
    {
        let ghost now = views.take(i + 1);
        proof {
            assert(decreases_to!(items => items@[i as int]));
            assert(decreases_to!(items@[i as int] => items@[i as int].0));
            assert(decreases_to!(items@[i as int] => items@[i as int].1));
            assert(now.drop_last() =~= views.take(i as int));
            assert(now.last() == (items@[i as int].0@, items@[i as int].1@));
        }
        let ghost before = texts(calls@);
        let ghost done = item_views(out@);
        let ghost mut key_calls: Seq<Seq<char>> = Seq::empty();
        let key = match &items[i].0 {
            ObjectKey::Identifier(t) => {
                assert(before + Seq::<Seq<char>>::empty() =~= before);
                ObjectKey::Identifier(t.clone())
            },
            ObjectKey::Expression(x) => {
                assert(decreases_to!(items@[i as int].0 => items@[i as int].0->Expression_0));
                match rewrite_try(facts, x, scope, bindings) {
                    Step::Need(q) => {
                        proof {
                            assert forall|w: World| #[trigger] facts.agrees(w) implies items_ask(w, views, s, b, q@) by {
                                assert(items_ask(w, now, s, b, q@));
                                lemma_items_ask(w, views, s, b, i + 1, q@);
                            }
                        }
                        return Step::Need(q);
                    },
                    Step::Done(r) => {
                        proof {
                            key_calls = texts(r.file_calls@);
                        }
                        add_calls(&mut calls, r.file_calls);
                        match r.expr {
                            Err(m) => {
                                proof {
                                    assert forall|w: World| #[trigger] facts.agrees(w) implies rewritten_items(
                                        w,
                                        views,
                                        s,
                                        b,
                                    ) == (Err::<Seq<(KeyView, ExprView)>, Seq<char>>(m@), texts(calls@)) by {
                                        assert(rewritten_items(w, now, s, b).0 == Err::<
                                            Seq<(KeyView, ExprView)>,
                                            Seq<char>,
                                        >(m@));
                                        assert(rewritten_items(w, now, s, b).1 == texts(calls@));
                                        lemma_items_stay_failed(w, views, s, b, i + 1);
                                    }
                                }
                                return Step::Done((Err(m), calls));
                            },
                            Ok(y) => ObjectKey::Expression(y),
                        }
                    },
                }
            },
        };
        assert(texts(calls@) == before + key_calls);
        let v = match rewrite_try(facts, &items[i].1, scope, bindings) {
            Step::Need(q) => {
                proof {
                    assert forall|w: World| #[trigger] facts.agrees(w) implies items_ask(w, views, s, b, q@) by {
                        assert(items_ask(w, now, s, b, q@));
                        lemma_items_ask(w, views, s, b, i + 1, q@);
                    }
                }
                return Step::Need(q);
            },
            Step::Done(v) => v,
        };
        let ghost got = v@;
        add_calls(&mut calls, v.file_calls);
        match v.expr {
            Err(m) => {
                proof {
                    assert forall|w: World| #[trigger] facts.agrees(w) implies rewritten_items(w, views, s, b) == (
                        Err::<Seq<(KeyView, ExprView)>, Seq<char>>(m@),
                        texts(calls@),
                    ) by {
                        assert(rewritten_items(w, now, s, b).0 == Err::<Seq<(KeyView, ExprView)>, Seq<char>>(m@));
                        assert(rewritten_items(w, now, s, b).1 == texts(calls@));
                        lemma_items_stay_failed(w, views, s, b, i + 1);
                    }
                }
                return Step::Done((Err(m), calls));
            },
            Ok(x) => {
                put_item(&mut out, key, x);
            },
        }
        i += 1;
    }
    assert(views.take(i as int) =~= views);
    Step::Done((Ok(out), calls))
}

/// Evaluates an expression.
///
/// `try(...)` is lazy: its arguments are evaluated one by one and the first success wins.
pub fn evaluate_expression(facts: &Facts, expr: &Expr, scope: &Scope) -> (res: Step<Answer>)
    ensures
        match res {
            Step::Done(a) => forall|w: World| #[trigger]
                facts.agrees(w) ==> a@ == lazily(w, expr@, scope@, Seq::empty()),
            Step::Need(q) => !facts.knows(q@) && forall|w: World| #[trigger] facts.agrees(w) ==> lazy_asks(
                w,
                expr@,
                scope@,
                Seq::empty(),
                q@,
            ),
        },
{
    let none: Vec<(String, HclValue)> = Vec::new();
    assert(entry_views(none@) =~= Seq::empty());
    eval_lazy(facts, expr, scope, &none)
}

// ------------------------------------------------------------------------- locals

/// The attributes in a body, in order.
pub open spec fn attributes(items: Seq<StructureView>) -> Seq<(Seq<char>, ExprView)>
    decreases items.len(),
{
    if items.len() == 0 {
        Seq::empty()
    } else {
        let before = attributes(items.drop_last());
        match items.last() {
            StructureView::Attribute(a) => before.push((a.key, a.expr)),
            StructureView::Block(_) => before,
        }
    }
}

/// The attributes in the `locals` blocks of a file, in order.
pub open spec fn local_attributes(items: Seq<StructureView>) -> Seq<(Seq<char>, ExprView)>
    decreases items.len(),
{
    if items.len() == 0 {
        Seq::empty()
    } else {
        let before = local_attributes(items.drop_last());
        match items.last() {
            StructureView::Attribute(_) => before,
            StructureView::Block(b) => if b.identifier == "locals"@ {
                before + attributes(b.body.items)
            } else {
                before
            },
        }
    }
}

/// The scope in which `local` stands for the given items.
pub open spec fn with_locals(s: ScopeView, known: Seq<(Seq<char>, ValueView)>) -> ScopeView {
    ScopeView { locals: ValueView::Object(known), ..s }
}

/// What one pass over the locals comes to.
pub struct PassView {
    /// What is known behind it
    pub known: Seq<(Seq<char>, ValueView)>,
    /// What could not be evaluated
    pub left: Seq<(Seq<char>, ExprView)>,
    pub file_calls: Seq<Seq<char>>,
}

/// One pass over the locals: each is evaluated with those that are known by then.
pub open spec fn one_pass(
    w: World,
    pending: Seq<(Seq<char>, ExprView)>,
    s: ScopeView,
    known: Seq<(Seq<char>, ValueView)>,
) -> PassView
    decreases pending.len(),
{
    if pending.len() == 0 {
        PassView { known, left: Seq::empty(), file_calls: Seq::empty() }
    } else {
        let before = one_pass(w, pending.drop_last(), s, known);
        let a = lazily(w, pending.last().1, with_locals(s, before.known), Seq::empty());
        let file_calls = before.file_calls + a.file_calls;
        match a.result {
            Ok(v) => PassView { known: with_entry(before.known, pending.last().0, v), left: before.left, file_calls },
            Err(_) => PassView { known: before.known, left: before.left.push(pending.last()), file_calls },
        }
    }
}

/// The locals, when passes are made until nothing is left or a pass brings nothing new.
pub open spec fn settled(
    w: World,
    pending: Seq<(Seq<char>, ExprView)>,
    s: ScopeView,
    known: Seq<(Seq<char>, ValueView)>,
) -> AnswerView
    decreases pending.len(),
{
    let p = one_pass(w, pending, s, known);
    if p.left.len() == 0 || p.left.len() >= pending.len() {
        AnswerView { result: Ok(ValueView::Object(p.known)), file_calls: p.file_calls }
    } else {
        after(p.file_calls, settled(w, p.left, s, p.known))
    }
}

/// The object that `local` stands for in a file.
pub open spec fn locals_of(w: World, file: ContentsView, s: ScopeView) -> AnswerView {
    settled(w, local_attributes(file.items), s, Seq::empty())
}

/// One pass over the locals asks for `q`.
pub open spec fn pass_asks(
    w: World,
    pending: Seq<(Seq<char>, ExprView)>,
    s: ScopeView,
    known: Seq<(Seq<char>, ValueView)>,
    q: QueryView,
) -> bool
    decreases pending.len(),
{
    if pending.len() == 0 {
        false
    } else {
        pass_asks(w, pending.drop_last(), s, known, q) || lazy_asks(
            w,
            pending.last().1,
            with_locals(s, one_pass(w, pending.drop_last(), s, known).known),
            Seq::empty(),
            q,
        )
    }
}

/// Passes over the locals, until nothing is left or one brings nothing new, ask for `q`.
pub open spec fn settle_asks(
    w: World,
    pending: Seq<(Seq<char>, ExprView)>,
    s: ScopeView,
    known: Seq<(Seq<char>, ValueView)>,
    q: QueryView,
) -> bool
    decreases pending.len(),
{
    let p = one_pass(w, pending, s, known);
    pass_asks(w, pending, s, known, q) || (0 < p.left.len() < pending.len() && settle_asks(w, p.left, s, p.known, q))
}

/// Evaluating the locals of a file asks for `q`.
pub open spec fn locals_ask(w: World, file: ContentsView, s: ScopeView, q: QueryView) -> bool {
    settle_asks(w, local_attributes(file.items), s, Seq::empty(), q)
}

proof fn lemma_pass_asks(
    w: World,
    pending: Seq<(Seq<char>, ExprView)>,
    s: ScopeView,
    known: Seq<(Seq<char>, ValueView)>,
    k: int,
    q: QueryView,
)
    requires
        0 <= k <= pending.len(),
        pass_asks(w, pending.take(k), s, known, q),
    ensures
        pass_asks(w, pending, s, known, q),
    decreases pending.len(),
{
    if k == pending.len() {
        assert(pending.take(k) =~= pending);
    } else {
        assert(pending.drop_last().take(k) =~= pending.take(k));
        lemma_pass_asks(w, pending.drop_last(), s, known, k, q);
    }
}

spec fn pending_views(items: Seq<(String, Expr)>) -> Seq<(Seq<char>, ExprView)> {
    items.map_values(|p: (String, Expr)| (p.0@, p.1@))
}

fn add_attributes(body: &Contents, out: &mut Vec<(String, Expr)>)
    ensures
        pending_views(final(out)@) == pending_views(old(out)@) + attributes(body@.items),
{
    let ghost before = pending_views(out@);
    let ghost items = body@.items;
    let mut i: usize = 0;
    assert(items.take(0) =~= Seq::empty());
    assert(before + Seq::<(Seq<char>, ExprView)>::empty() =~= before);
    while i < body.items.len()
        invariant
            i <= body.items@.len(),
            items == body@.items,
            pending_views(out@) == before + attributes(items.take(i as int)),
        decreases body.items@.len() - i,
    {
        let ghost now = items.take(i + 1);
        assert(now.drop_last() =~= items.take(i as int));
        assert(now.last() == body.items@[i as int]@);
        let ghost had = pending_views(out@);
        match &body.items[i] {
            Structure::Attribute(a) => {
                out.push((a.key.clone(), copy_expr(&a.expr)));
                assert(pending_views(out@) =~= had.push((a.key@, a.expr@)));
                assert(before + attributes(now) =~= had.push((a.key@, a.expr@)));
            },
            Structure::Block(_) => {},
        }
        i += 1;
    }
    assert(items.take(i as int) =~= items);
}

fn collect_locals(file: &Contents) -> (res: Vec<(String, Expr)>)
    ensures
        pending_views(res@) == local_attributes(file@.items),
{
    let ghost items = file@.items;
    let mut out: Vec<(String, Expr)> = Vec::new();
    let mut i: usize = 0;
    assert(items.take(0) =~= Seq::empty());
    assert(pending_views(out@) =~= Seq::empty());
    while i < file.items.len()
        invariant
            i <= file.items@.len(),
            items == file@.items,
            pending_views(out@) == local_attributes(items.take(i as int)),
        decreases file.items@.len() - i,
    {
        let ghost now = items.take(i + 1);
        assert(now.drop_last() =~= items.take(i as int));
        assert(now.last() == file.items@[i as int]@);
        match &file.items[i] {
            Structure::Attribute(_) => {},
            Structure::Block(b) => {
                if same(b.identifier.as_str(), "locals") {
                    add_attributes(&b.body, &mut out);
                }
            },
        }
        i += 1;
    }
    assert(items.take(i as int) =~= items);
    out
}

/// Evaluates the `locals` of a file.
///
/// A local may depend on others, whatever their order: those that cannot be evaluated are tried
/// again once more are known, until a pass brings nothing new. Locals that are left then are
/// dropped.
pub fn evaluate_locals(facts: &Facts, file: &Contents, scope: &Scope) -> (res: Step<Answer>)
    ensures
        match res {
            Step::Done(a) => forall|w: World| #[trigger] facts.agrees(w) ==> a@ == locals_of(w, file@, scope@),
            Step::Need(q) => !facts.knows(q@) && forall|w: World| #[trigger] facts.agrees(w) ==> locals_ask(w, file@, scope@, q@),
        },
{
    let mut pending = collect_locals(file);
    let ghost all = pending_views(pending@);
    let ghost s = scope@;
    let mut known: Vec<(String, HclValue)> = Vec::new();
    let mut calls = no_calls();
    assert(entry_views(known@) =~= Seq::empty());
    proof {
        assert forall|w: World| #[trigger] facts.agrees(w) implies settled(w, all, s, Seq::empty()) == after(
            texts(calls@),
            settled(w, pending_views(pending@), s, entry_views(known@)),
        ) by {
            lemma_after(Seq::empty(), Seq::empty(), settled(w, all, s, Seq::empty()));
        }
    }
    loop
        invariant
            all == local_attributes(file@.items),
            s == scope@,
            forall|w: World| #[trigger]
                facts.agrees(w) ==> settled(w, all, s, Seq::empty()) == after(
                    texts(calls@),
                    settled(w, pending_views(pending@), s, entry_views(known@)),
                ),
            forall|w: World, q: QueryView| #[trigger]
                facts.agrees(w) && #[trigger] settle_asks(w, pending_views(pending@), s, entry_views(known@), q)
                    ==> settle_asks(w, all, s, Seq::empty(), q),
        decreases pending@.len(),
    {
        let ghost todo = pending_views(pending@);
        let ghost start = entry_views(known@);
        let ghost calls_before = texts(calls@);
        let mut left: Vec<(String, Expr)> = Vec::new();
        let mut i: usize = 0;
        assert(todo.take(0) =~= Seq::empty());
        assert(pending_views(left@) =~= Seq::empty());
        assert(calls_before + Seq::<Seq<char>>::empty() =~= calls_before);
        while i < pending.len()
            invariant
                i <= pending@.len(),
                left@.len() <= i,
                todo == pending_views(pending@),
                s == scope@,
                all == local_attributes(file@.items),
                forall|w: World, q: QueryView| #[trigger]
                    facts.agrees(w) && #[trigger] settle_asks(w, todo, s, start, q) ==> settle_asks(
                        w,
                        all,
                        s,
                        Seq::empty(),
                        q,
                    ),
                forall|w: World| #[trigger]
                    facts.agrees(w) ==> {
                        let p = one_pass(w, todo.take(i as int), s, start);
                        &&& p.known == entry_views(known@)
                        &&& p.left == pending_views(left@)
                        &&& texts(calls@) == calls_before + p.file_calls
                    },
            decreases pending@.len() - i,
        {
            let ghost now = todo.take(i + 1);
            assert(now.drop_last() =~= todo.take(i as int));
            assert(now.last() == (pending@[i as int].0@, pending@[i as int].1@));
            let ghost had = entry_views(known@);
            let ghost had_left = pending_views(left@);
            let ghost had_calls = texts(calls@);
            let snapshot = copy_entries(&known);
            proof {
                assert(entry_views(snapshot@) =~= had);
                lemma_object_view(snapshot);
            }
            let inner = Scope {
                values: copy_value(&scope.values),
                locals: HclValue::Object(snapshot),
                terragrunt_dir: scope.terragrunt_dir.clone(),
                parent_dir: clone_opt(&scope.parent_dir),
                strict: scope.strict,
            };
            assert(inner@ == with_locals(s, had));
            let a = match evaluate_expression(facts, &pending[i].1, &inner) {
                Step::Need(q) => {
                    proof {
                        assert forall|w: World| #[trigger] facts.agrees(w) implies locals_ask(w, file@, s, q@) by {
                            assert(pass_asks(w, now, s, start, q@));
                            lemma_pass_asks(w, todo, s, start, i + 1, q@);
                            assert(settle_asks(w, todo, s, start, q@));
                        }
                    }
                    return Step::Need(q);
                },
                Step::Done(a) => a,
            };
            let ghost got = a@;
            add_calls(&mut calls, a.file_calls);
            match a.result {
                Ok(v) => {
                    put_entry(&mut known, pending[i].0.clone(), v);
                },
                Err(_) => {
                    let item = (pending[i].0.clone(), copy_expr(&pending[i].1));
                    left.push(item);
                    assert(pending_views(left@) =~= had_left.push((item.0@, item.1@)));
                },
            }
            proof {
                assert forall|w: World| #[trigger] facts.agrees(w) implies texts(calls@) == calls_before + one_pass(
                    w,
                    now,
                    s,
                    start,
                ).file_calls by {
                    let p = one_pass(w, todo.take(i as int), s, start);
                    assert(calls_before + p.file_calls + got.file_calls =~= calls_before + (p.file_calls
                        + got.file_calls));
                }
            }
            i += 1;
        }
        assert(todo.take(i as int) =~= todo);
        if left.len() == 0 || left.len() >= pending.len() {
            proof {
                lemma_object_view(known);
            }
            return Step::Done(Answer { result: Ok(HclValue::Object(known)), file_calls: calls });
        }
        proof {
            assert forall|w: World| #[trigger] facts.agrees(w) implies settled(w, all, s, Seq::empty()) == after(
                texts(calls@),
                settled(w, pending_views(left@), s, entry_views(known@)),
            ) by {
                let p = one_pass(w, todo, s, start);
                lemma_after(calls_before, p.file_calls, settled(w, p.left, s, p.known));
            }
            assert forall|w: World, q: QueryView| #[trigger]
                facts.agrees(w) && #[trigger] settle_asks(w, pending_views(left@), s, entry_views(known@), q) implies settle_asks(
                w,
                all,
                s,
                Seq::empty(),
                q,
            ) by {
                let p = one_pass(w, todo, s, start);
                assert(settle_asks(w, todo, s, start, q));
            }
        }
        pending = left;
    }
}

// --------------------------------------------------------------------------- laws

/// Nothing useful came of an argument of a `try`: it failed, or it is null.
pub open spec fn is_passed_over(a: AnswerView) -> bool {
    match a.result {
        Ok(v) => v is Null,
        Err(_) => true,
    }
}

/// Lazy `try`: the first argument that can be evaluated and is not null is what comes of it, and
/// the arguments behind it are not looked at: whatever is asked for is asked for by that argument
/// or by one before it.
pub proof fn law_first_success_wins(w: World, e: ExprView, s: ScopeView, b: BindingsView, k: int)
    requires
        is_try(e),
        0 <= k < e->args.len(),
        !is_passed_over(lazily(w, e->args[k], s, b)),
        forall|j: int| 0 <= j < k ==> is_passed_over(#[trigger] lazily(w, e->args[j], s, b)),
    ensures
        lazily(w, e, s, b).result == lazily(w, e->args[k], s, b).result,
        forall|q: QueryView|
            lazy_asks(w, e, s, b, q) ==> exists|j: int| 0 <= j <= k && #[trigger] lazy_asks(w, e->args[j], s, b, q),
{
    assert(has_try(e));
    lemma_skip_passed_over(w, e->args, s, b, k, 0, false, None);
    assert forall|q: QueryView| lazy_asks(w, e, s, b, q) implies exists|j: int|
        0 <= j <= k && #[trigger] lazy_asks(w, e->args[j], s, b, q) by {
        lemma_asks_no_further(w, e->args, s, b, k, 0, q);
    }
}

proof fn lemma_skip_passed_over(
    w: World,
    args: Seq<ExprView>,
    s: ScopeView,
    b: BindingsView,
    k: int,
    from: int,
    was_null: bool,
    failure: Option<Seq<char>>,
)
    requires
        0 <= from <= k < args.len(),
        !is_passed_over(lazily(w, args[k], s, b)),
        forall|j: int| from <= j < k ==> is_passed_over(#[trigger] lazily(w, args[j], s, b)),
    ensures
        tries(w, args, s, b, from, was_null, failure).result == lazily(w, args[k], s, b).result,
    decreases k - from,
{
    if from < k {
        let a = lazily(w, args[from], s, b);
        assert(is_passed_over(a));
        match a.result {
            Ok(_) => lemma_skip_passed_over(w, args, s, b, k, from + 1, true, failure),
            Err(m) => lemma_skip_passed_over(w, args, s, b, k, from + 1, was_null, Some(m)),
        }
    }
}

proof fn lemma_asks_no_further(
    w: World,
    args: Seq<ExprView>,
    s: ScopeView,
    b: BindingsView,
    k: int,
    from: int,
    q: QueryView,
)
    requires
        0 <= from <= k < args.len(),
        !is_passed_over(lazily(w, args[k], s, b)),
        try_asks(w, args, s, b, from, q),
    ensures
        exists|j: int| from <= j <= k && #[trigger] lazy_asks(w, args[j], s, b, q),
    decreases k - from,
{
    if lazy_asks(w, args[from], s, b, q) {
        assert(from <= k && lazy_asks(w, args[from], s, b, q));
    } else {
        assert(from < k);
        lemma_asks_no_further(w, args, s, b, k, from + 1, q);
    }
}

/// `try` without a useful argument: null, where one of them is null.
pub proof fn law_null_is_the_last_resort(w: World, e: ExprView, s: ScopeView, b: BindingsView, k: int)
    requires
        is_try(e),
        0 <= k < e->args.len(),
        lazily(w, e->args[k], s, b).result == Ok::<ValueView, Seq<char>>(ValueView::Null),
        forall|j: int| 0 <= j < e->args.len() ==> is_passed_over(#[trigger] lazily(w, e->args[j], s, b)),
    ensures
        lazily(w, e, s, b).result == Ok::<ValueView, Seq<char>>(ValueView::Null),
{
    assert(has_try(e));
    lemma_null_remains(w, e->args, s, b, k, 0, false, None);
}

proof fn lemma_null_remains(
    w: World,
    args: Seq<ExprView>,
    s: ScopeView,
    b: BindingsView,
    k: int,
    from: int,
    was_null: bool,
    failure: Option<Seq<char>>,
)
    requires
        0 <= from <= args.len(),
        was_null || (from <= k < args.len() && lazily(w, args[k], s, b).result == Ok::<ValueView, Seq<char>>(
            ValueView::Null,
        )),
        forall|j: int| from <= j < args.len() ==> is_passed_over(#[trigger] lazily(w, args[j], s, b)),
    ensures
        tries(w, args, s, b, from, was_null, failure).result == Ok::<ValueView, Seq<char>>(ValueView::Null),
    decreases args.len() - from,
{
    if from < args.len() {
        let a = lazily(w, args[from], s, b);
        assert(is_passed_over(a));
        match a.result {
            Ok(_) => lemma_null_remains(w, args, s, b, k, from + 1, true, failure),
            Err(m) => lemma_null_remains(w, args, s, b, k, from + 1, was_null, Some(m)),
        }
    }
}

/// What rewriting leaves is safe for the evaluator: no call of `try` is in it.
pub proof fn law_rewriting_leaves_no_try(w: World, e: ExprView, s: ScopeView, b: BindingsView)
    ensures
        match rewritten(w, e, s, b).expr {
            Ok(x) => !has_try(x),
            Err(_) => true,
        },
    decreases e, 0int,
{
    if b.len() == 0 && !has_try(e) {
    } else if is_try(e) || e is For {
        match lazily(w, e, s, b).result {
            Ok(v) => lemma_literal_has_no_try(v),
            Err(_) => {},
        }
    } else {
        match e {
            ExprView::FuncCall { namespace, name, args, expand_final } => lemma_all_without_try(w, args, s, b),
            ExprView::Array(items) => lemma_all_without_try(w, items, s, b),
            ExprView::Object(items) => lemma_items_without_try(w, items, s, b),
            ExprView::Traversal { expr, operators } => law_rewriting_leaves_no_try(w, *expr, s, b),
            ExprView::Parenthesis(x) => law_rewriting_leaves_no_try(w, *x, s, b),
            ExprView::Conditional { cond, yes, no } => {
                law_rewriting_leaves_no_try(w, *cond, s, b);
                law_rewriting_leaves_no_try(w, *yes, s, b);
                law_rewriting_leaves_no_try(w, *no, s, b);
            },
            ExprView::Unary { operator, expr } => law_rewriting_leaves_no_try(w, *expr, s, b),
            ExprView::Binary { lhs, operator, rhs } => {
                law_rewriting_leaves_no_try(w, *lhs, s, b);
                law_rewriting_leaves_no_try(w, *rhs, s, b);
            },
            _ => {},
        }
    }
}

proof fn lemma_literal_has_no_try(v: ValueView)
    ensures
        !has_try(literal(v)),
    decreases v,
{
    match v {
        ValueView::Array(items) => {
            let made = literal(v)->Array_0;
            assert forall|i: int| 0 <= i < made.len() implies !has_try(#[trigger] made[i]) by {
                lemma_literal_has_no_try(items[i]);
            }
        },
        ValueView::Object(items) => {
            let made = literal(v)->Object_0;
            assert forall|i: int| 0 <= i < made.len() implies !((#[trigger] made[i]).0 is Expression && has_try(
                made[i].0->Expression_0,
            )) && !has_try(made[i].1) by {
                assert(decreases_to!(items => items[i]));
                assert(decreases_to!(items[i] => items[i].1));
                lemma_literal_has_no_try(items[i].1);
            }
        },
        _ => {},
    }
}

proof fn lemma_all_without_try(w: World, items: Seq<ExprView>, s: ScopeView, b: BindingsView)
    ensures
        match rewritten_all(w, items, s, b).0 {
            Ok(done) => forall|i: int| 0 <= i < done.len() ==> !has_try(#[trigger] done[i]),
            Err(_) => true,
        },
    decreases items, 0int,
{
    if items.len() > 0 {
        assert(decreases_to!(items => items.drop_last()));
        assert(decreases_to!(items => items[items.len() - 1]));
        lemma_all_without_try(w, items.drop_last(), s, b);
        law_rewriting_leaves_no_try(w, items.last(), s, b);
    }
}

/// Neither a key nor a value of the items has a call of `try` in it.
spec fn items_without_try(items: Seq<(KeyView, ExprView)>) -> bool {
    forall|i: int|
        0 <= i < items.len() ==> !((#[trigger] items[i]).0 is Expression && has_try(items[i].0->Expression_0)) && !has_try(
            items[i].1,
        )
}

proof fn lemma_with_item_without_try(items: Seq<(KeyView, ExprView)>, key: KeyView, value: ExprView)
    requires
        items_without_try(items),
        !(key is Expression && has_try(key->Expression_0)),
        !has_try(value),
    ensures
        items_without_try(with_item(items, key, value)),
    decreases items.len(),
{
    if items.len() > 0 && items[0].0 != key {
        let rest = items.skip(1);
        assert forall|i: int| 0 <= i < rest.len() implies !((#[trigger] rest[i]).0 is Expression && has_try(
            rest[i].0->Expression_0,
        )) && !has_try(rest[i].1) by {
            assert(rest[i] == items[i + 1]);
        }
        lemma_with_item_without_try(rest, key, value);
        let after = with_item(rest, key, value);
        let all = with_item(items, key, value);
        assert forall|i: int| 0 <= i < all.len() implies !((#[trigger] all[i]).0 is Expression && has_try(
            all[i].0->Expression_0,
        )) && !has_try(all[i].1) by {
            if i > 0 {
                assert(all[i] == after[i - 1]);
            } else {
                assert(all[0] == items[0]);
            }
        }
    }
}

proof fn lemma_items_without_try(w: World, items: Seq<(KeyView, ExprView)>, s: ScopeView, b: BindingsView)
    ensures
        match rewritten_items(w, items, s, b).0 {
            Ok(done) => items_without_try(done),
            Err(_) => true,
        },
    decreases items, 0int,
{
    if items.len() > 0 {
        let last = items[items.len() - 1];
        assert(decreases_to!(items => items.drop_last()));
        assert(decreases_to!(items => items[items.len() - 1]));
        assert(decreases_to!(last => last.0));
        assert(decreases_to!(last => last.1));
        lemma_items_without_try(w, items.drop_last(), s, b);
        law_rewriting_leaves_no_try(w, last.1, s, b);
        if last.0 is Expression {
            assert(decreases_to!(last.0 => last.0->Expression_0));
            law_rewriting_leaves_no_try(w, last.0->Expression_0, s, b);
        }
        match (rewritten_items(w, items.drop_last(), s, b).0, rewritten(w, last.1, s, b).expr) {
            (Ok(done), Ok(y)) => {
                let key = match last.0 {
                    KeyView::Expression(x) => match rewritten(w, x, s, b).expr {
                        Ok(k) => KeyView::Expression(k),
                        Err(_) => KeyView::Identifier(Seq::empty()),
                    },
                    KeyView::Identifier(t) => KeyView::Identifier(t),
                };
                lemma_with_item_without_try(done, key, y);
            },
            _ => {},
        }
    }
}

/// An expression without `try` is evaluated as it stands.
pub proof fn law_plain_expression(w: World, e: ExprView, s: ScopeView)
    requires
        !has_try(e),
    ensures
        lazily(w, e, s, Seq::empty()) == ask(w, e, s, Seq::empty()),
{
}

/// Where a pass leaves nothing over, every local of it is known.
pub proof fn law_nothing_left_all_known(
    w: World,
    pending: Seq<(Seq<char>, ExprView)>,
    s: ScopeView,
    known: Seq<(Seq<char>, ValueView)>,
    i: int,
)
    requires
        one_pass(w, pending, s, known).left.len() == 0,
        0 <= i < pending.len(),
    ensures
        crate::builtins::entry(one_pass(w, pending, s, known).known, pending[i].0) is Some,
    decreases pending.len(),
{
    let last = pending.last();
    let before = one_pass(w, pending.drop_last(), s, known);
    let a = lazily(w, last.1, with_locals(s, before.known), Seq::empty());
    assert(a.result is Ok);
    crate::builtins::lemma_entry_put(before.known, last.0, a.result->Ok_0, pending[i].0);
    if i < pending.len() - 1 {
        assert(pending.drop_last()[i] == pending[i]);
        law_nothing_left_all_known(w, pending.drop_last(), s, known, i);
    }
}

} // verus!
