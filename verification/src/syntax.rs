//! The HCL syntax tree and the values that HCL expressions stand for.

use crate::text::{clone_opt, clone_texts};
#[allow(unused_imports)]
use crate::text::{opt_text, texts};
use vstd::prelude::*;

verus! {

// -------------------------------------------------------------------- numbers

/// A number. One that is not an integer is kept in decimal notation.
#[derive(Debug, PartialEq, Eq)]
pub enum Number {
    PosInt(u64),
    NegInt(i64),
    Float(String),
}

/// What a number is.
pub enum NumberView {
    PosInt(u64),
    NegInt(i64),
    Float(Seq<char>),
}

impl Number {
    pub open spec fn view(&self) -> NumberView {
        match self {
            Number::PosInt(n) => NumberView::PosInt(*n),
            Number::NegInt(n) => NumberView::NegInt(*n),
            Number::Float(t) => NumberView::Float(t@),
        }
    }
}

impl Clone for Number {
    fn clone(&self) -> (res: Self)
        ensures
            res@ == self@,
    {
        match self {
            Number::PosInt(n) => Number::PosInt(*n),
            Number::NegInt(n) => Number::NegInt(*n),
            Number::Float(t) => Number::Float(t.clone()),
        }
    }
}

/// Whether two numbers are the same.
pub fn same_number(a: &Number, b: &Number) -> (res: bool)
    ensures
        res == (a@ == b@),
{
    match (a, b) {
        (Number::PosInt(m), Number::PosInt(n)) => *m == *n,
        (Number::NegInt(m), Number::NegInt(n)) => *m == *n,
        (Number::Float(s), Number::Float(t)) => *s == *t,
        _ => false,
    }
}

// ---------------------------------------------------------------- expressions

/// How a template is delimited, where it is not by quotes.
#[derive(Debug, PartialEq, Eq)]
pub struct Heredoc {
    /// The word that ends the template
    pub delimiter: String,
    /// Whether the indentation is taken off
    pub indented: bool,
}

pub struct HeredocView {
    pub delimiter: Seq<char>,
    pub indented: bool,
}

impl Heredoc {
    pub open spec fn view(&self) -> HeredocView {
        HeredocView { delimiter: self.delimiter@, indented: self.indented }
    }
}

/// An HCL expression.
#[allow(inconsistent_fields)]
#[derive(Debug, PartialEq, Eq)]
pub enum Expr {
    Null,
    Bool(bool),
    Number(Number),
    String(String),
    Array(Vec<Expr>),
    Object(Vec<(ObjectKey, Expr)>),
    /// A string with interpolations or directives; `parts` is what it is made of, where it can be
    /// read as a template
    Template { raw: String, heredoc: Option<Heredoc>, parts: Option<Vec<TemplatePart>> },
    Variable(String),
    Traversal { expr: Box<Expr>, operators: Vec<TraversalOperator> },
    FuncCall { namespace: Vec<String>, name: String, args: Vec<Expr>, expand_final: bool },
    Parenthesis(Box<Expr>),
    Conditional { cond: Box<Expr>, yes: Box<Expr>, no: Box<Expr> },
    /// An operator, by its symbol, on one expression
    Unary { operator: String, expr: Box<Expr> },
    /// An operator, by its symbol, on two expressions
    Binary { lhs: Box<Expr>, operator: String, rhs: Box<Expr> },
    For {
        key_var: Option<String>,
        value_var: String,
        collection: Box<Expr>,
        key: Option<Box<Expr>>,
        value: Box<Expr>,
        grouping: bool,
        cond: Option<Box<Expr>>,
    },
    /// An expression of a kind that is not known here
    Unknown,
}

/// The key of an object's item.
#[derive(Debug, PartialEq, Eq)]
pub enum ObjectKey {
    Identifier(String),
    Expression(Expr),
}

/// A part of a template.
#[derive(Debug, PartialEq, Eq)]
pub enum TemplatePart {
    Literal(String),
    Interpolation(Expr),
    /// An `if` or a `for`: its condition or collection, the parts of its branch, and those of its
    /// other branch
    Directive { expr: Expr, parts: Vec<TemplatePart>, other: Vec<TemplatePart> },
}

/// A step of a traversal.
#[derive(Debug, PartialEq, Eq)]
pub enum TraversalOperator {
    AttrSplat,
    FullSplat,
    GetAttr(String),
    Index(Expr),
    LegacyIndex(u64),
}

/// What an expression is.
#[allow(inconsistent_fields)]
pub enum ExprView {
    Null,
    Bool(bool),
    Number(NumberView),
    String(Seq<char>),
    Array(Seq<ExprView>),
    Object(Seq<(KeyView, ExprView)>),
    Template { raw: Seq<char>, heredoc: Option<HeredocView>, parts: Option<Seq<TemplatePartView>> },
    Variable(Seq<char>),
    Traversal { expr: Box<ExprView>, operators: Seq<OperatorView> },
    FuncCall { namespace: Seq<Seq<char>>, name: Seq<char>, args: Seq<ExprView>, expand_final: bool },
    Parenthesis(Box<ExprView>),
    Conditional { cond: Box<ExprView>, yes: Box<ExprView>, no: Box<ExprView> },
    Unary { operator: Seq<char>, expr: Box<ExprView> },
    Binary { lhs: Box<ExprView>, operator: Seq<char>, rhs: Box<ExprView> },
    For {
        key_var: Option<Seq<char>>,
        value_var: Seq<char>,
        collection: Box<ExprView>,
        key: Option<Box<ExprView>>,
        value: Box<ExprView>,
        grouping: bool,
        cond: Option<Box<ExprView>>,
    },
    Unknown,
}

pub enum KeyView {
    Identifier(Seq<char>),
    Expression(ExprView),
}

pub enum TemplatePartView {
    Literal(Seq<char>),
    Interpolation(ExprView),
    Directive { expr: ExprView, parts: Seq<TemplatePartView>, other: Seq<TemplatePartView> },
}

pub enum OperatorView {
    AttrSplat,
    FullSplat,
    GetAttr(Seq<char>),
    Index(ExprView),
    LegacyIndex(u64),
}

impl Expr {
    pub open spec fn view(&self) -> ExprView
        decreases self,
    {
        match self {
            Expr::Null => ExprView::Null,
            Expr::Bool(b) => ExprView::Bool(*b),
            Expr::Number(n) => ExprView::Number(n.view()),
            Expr::String(t) => ExprView::String(t@),
            Expr::Array(items) => ExprView::Array(
                Seq::new(
                    items@.len(),
                    |i: int|
                        if 0 <= i < items@.len() {
                            items@[i].view()
                        } else {
                            ExprView::Null
                        },
                ),
            ),
            Expr::Object(items) => ExprView::Object(
                Seq::new(
                    items@.len(),
                    |i: int|
                        if 0 <= i < items@.len() {
                            (items@[i].0.view(), items@[i].1.view())
                        } else {
                            (KeyView::Identifier(Seq::empty()), ExprView::Null)
                        },
                ),
            ),
            Expr::Template { raw, heredoc, parts } => ExprView::Template {
                raw: raw@,
                heredoc: match heredoc {
                    Some(h) => Some(h.view()),
                    None => None,
                },
                parts: match parts {
                    Some(items) => Some(
                        Seq::new(
                            items@.len(),
                            |i: int|
                                if 0 <= i < items@.len() {
                                    items@[i].view()
                                } else {
                                    TemplatePartView::Literal(Seq::empty())
                                },
                        ),
                    ),
                    None => None,
                },
            },
            Expr::Variable(t) => ExprView::Variable(t@),
            Expr::Traversal { expr, operators } => ExprView::Traversal {
                expr: Box::new(expr.view()),
                operators: Seq::new(
                    operators@.len(),
                    |i: int|
                        if 0 <= i < operators@.len() {
                            operators@[i].view()
                        } else {
                            OperatorView::AttrSplat
                        },
                ),
            },
            Expr::FuncCall { namespace, name, args, expand_final } => ExprView::FuncCall {
                namespace: texts(namespace@),
                name: name@,
                args: Seq::new(
                    args@.len(),
                    |i: int|
                        if 0 <= i < args@.len() {
                            args@[i].view()
                        } else {
                            ExprView::Null
                        },
                ),
                expand_final: *expand_final,
            },
            Expr::Parenthesis(expr) => ExprView::Parenthesis(Box::new(expr.view())),
            Expr::Conditional { cond, yes, no } => ExprView::Conditional {
                cond: Box::new(cond.view()),
                yes: Box::new(yes.view()),
                no: Box::new(no.view()),
            },
            Expr::Unary { operator, expr } => ExprView::Unary { operator: operator@, expr: Box::new(expr.view()) },
            Expr::Binary { lhs, operator, rhs } => ExprView::Binary {
                lhs: Box::new(lhs.view()),
                operator: operator@,
                rhs: Box::new(rhs.view()),
            },
            Expr::For { key_var, value_var, collection, key, value, grouping, cond } => ExprView::For {
                key_var: opt_text(*key_var),
                value_var: value_var@,
                collection: Box::new(collection.view()),
                key: match key {
                    Some(k) => Some(Box::new(k.view())),
                    None => None,
                },
                value: Box::new(value.view()),
                grouping: *grouping,
                cond: match cond {
                    Some(c) => Some(Box::new(c.view())),
                    None => None,
                },
            },
            Expr::Unknown => ExprView::Unknown,
        }
    }
}

impl ObjectKey {
    pub open spec fn view(&self) -> KeyView
        decreases self,
    {
        match self {
            ObjectKey::Identifier(t) => KeyView::Identifier(t@),
            ObjectKey::Expression(e) => KeyView::Expression(e.view()),
        }
    }
}

impl TemplatePart {
    pub open spec fn view(&self) -> TemplatePartView
        decreases self,
    {
        match self {
            TemplatePart::Literal(t) => TemplatePartView::Literal(t@),
            TemplatePart::Interpolation(e) => TemplatePartView::Interpolation(e.view()),
            TemplatePart::Directive { expr, parts, other } => TemplatePartView::Directive {
                expr: expr.view(),
                parts: Seq::new(
                    parts@.len(),
                    |i: int|
                        if 0 <= i < parts@.len() {
                            parts@[i].view()
                        } else {
                            TemplatePartView::Literal(Seq::empty())
                        },
                ),
                other: Seq::new(
                    other@.len(),
                    |i: int|
                        if 0 <= i < other@.len() {
                            other@[i].view()
                        } else {
                            TemplatePartView::Literal(Seq::empty())
                        },
                ),
            },
        }
    }
}

impl TraversalOperator {
    pub open spec fn view(&self) -> OperatorView
        decreases self,
    {
        match self {
            TraversalOperator::AttrSplat => OperatorView::AttrSplat,
            TraversalOperator::FullSplat => OperatorView::FullSplat,
            TraversalOperator::GetAttr(t) => OperatorView::GetAttr(t@),
            TraversalOperator::Index(e) => OperatorView::Index(e.view()),
            TraversalOperator::LegacyIndex(n) => OperatorView::LegacyIndex(*n),
        }
    }
}

/// The views of the parts of a template.
pub open spec fn part_views(items: Seq<TemplatePart>) -> Seq<TemplatePartView> {
    items.map_values(|p: TemplatePart| p.view())
}

pub proof fn lemma_directive_view(expr: Expr, parts: Vec<TemplatePart>, other: Vec<TemplatePart>)
    ensures
        (TemplatePart::Directive { expr, parts, other })@ == (TemplatePartView::Directive {
            expr: expr@,
            parts: part_views(parts@),
            other: part_views(other@),
        }),
{
    let v = (TemplatePart::Directive { expr, parts, other })@;
    assert(v->parts =~= part_views(parts@));
    assert(v->other =~= part_views(other@));
}

/// The views of a list of expressions.
pub open spec fn expr_views(items: Seq<Expr>) -> Seq<ExprView> {
    items.map_values(|e: Expr| e.view())
}


// -------------------------------------------------------------------- copying

/// A copy of an expression.
pub fn copy_expr(e: &Expr) -> (res: Expr)
    ensures
        res@ == e@,
    decreases e,
{
    let res = match e {
        Expr::Null => Expr::Null,
        Expr::Bool(b) => Expr::Bool(*b),
        Expr::Number(n) => Expr::Number(n.clone()),
        Expr::String(t) => Expr::String(t.clone()),
        Expr::Array(items) => Expr::Array(copy_exprs(items)),
        Expr::Object(items) => Expr::Object(copy_items(items)),
        Expr::Template { raw, heredoc, parts } => Expr::Template {
            raw: raw.clone(),
            heredoc: match heredoc {
                Some(h) => Some(Heredoc { delimiter: h.delimiter.clone(), indented: h.indented }),
                None => None,
            },
            parts: match parts {
                Some(items) => Some(copy_parts(items)),
                None => None,
            },
        },
        Expr::Variable(t) => Expr::Variable(t.clone()),
        Expr::Traversal { expr, operators } => Expr::Traversal {
            expr: Box::new(copy_expr(expr)),
            operators: copy_operators(operators),
        },
        Expr::FuncCall { namespace, name, args, expand_final } => Expr::FuncCall {
            namespace: clone_texts(namespace),
            name: name.clone(),
            args: copy_exprs(args),
            expand_final: *expand_final,
        },
        Expr::Parenthesis(expr) => Expr::Parenthesis(Box::new(copy_expr(expr))),
        Expr::Conditional { cond, yes, no } => Expr::Conditional {
            cond: Box::new(copy_expr(cond)),
            yes: Box::new(copy_expr(yes)),
            no: Box::new(copy_expr(no)),
        },
        Expr::Unary { operator, expr } => Expr::Unary { operator: operator.clone(), expr: Box::new(copy_expr(expr)) },
        Expr::Binary { lhs, operator, rhs } => Expr::Binary {
            lhs: Box::new(copy_expr(lhs)),
            operator: operator.clone(),
            rhs: Box::new(copy_expr(rhs)),
        },
        Expr::For { key_var, value_var, collection, key, value, grouping, cond } => Expr::For {
            key_var: clone_opt(key_var),
            value_var: value_var.clone(),
            collection: Box::new(copy_expr(collection)),
            key: match key {
                Some(k) => Some(Box::new(copy_expr(k))),
                None => None,
            },
            value: Box::new(copy_expr(value)),
            grouping: *grouping,
            cond: match cond {
                Some(c) => Some(Box::new(copy_expr(c))),
                None => None,
            },
        },
        Expr::Unknown => Expr::Unknown,
    };
    proof {
        lemma_same_children(res, *e);
    }
    res
}

/// Expressions whose lists of children look the same, and that are the same otherwise, look the
/// same.
proof fn lemma_same_children(a: Expr, b: Expr)
    ensures
        match (a, b) {
            (Expr::Array(x), Expr::Array(y)) => same_views(x@, y@) ==> a@ == b@,
            (Expr::Object(x), Expr::Object(y)) => same_item_views(x@, y@) ==> a@ == b@,
            (Expr::Template { raw: r, heredoc: h, parts: Some(x) }, Expr::Template { raw: s, heredoc: i, parts: Some(y) }) => r@
                == s@ && (h is Some <==> i is Some) && (h is Some ==> h->0.view() == i->0.view()) && same_part_views(
                x@,
                y@,
            ) ==> a@ == b@,
            (Expr::Traversal { expr: e, operators: x }, Expr::Traversal { expr: f, operators: y }) => e@ == f@
                && same_operator_views(x@, y@) ==> a@ == b@,
            (
                Expr::FuncCall { namespace: n, name: s, args: x, expand_final: p },
                Expr::FuncCall { namespace: m, name: t, args: y, expand_final: q },
            ) => texts(n@) == texts(m@) && s@ == t@ && p == q && same_views(x@, y@) ==> a@ == b@,
            _ => true,
        },
{
    match (a, b) {
        (Expr::Array(x), Expr::Array(y)) => {
            if same_views(x@, y@) {
                assert(a@->Array_0 =~= b@->Array_0);
            }
        },
        (Expr::Object(x), Expr::Object(y)) => {
            if same_item_views(x@, y@) {
                assert(a@->Object_0 =~= b@->Object_0);
            }
        },
        (Expr::Template { raw: r, heredoc: h, parts: Some(x) }, Expr::Template { raw: s, heredoc: i, parts: Some(y) }) => {
            if same_part_views(x@, y@) {
                assert(a@->Template_parts->0 =~= b@->Template_parts->0);
            }
        },
        (Expr::Traversal { expr: e, operators: x }, Expr::Traversal { expr: f, operators: y }) => {
            if same_operator_views(x@, y@) {
                assert(a@->operators =~= b@->operators);
            }
        },
        (
            Expr::FuncCall { namespace: n, name: s, args: x, expand_final: p },
            Expr::FuncCall { namespace: m, name: t, args: y, expand_final: q },
        ) => {
            if same_views(x@, y@) {
                assert(a@->args =~= b@->args);
            }
        },
        _ => {},
    }
}

spec fn same_views(a: Seq<Expr>, b: Seq<Expr>) -> bool {
    a.len() == b.len() && forall|i: int| 0 <= i < a.len() ==> (#[trigger] a[i]).view() == b[i].view()
}

spec fn same_item_views(a: Seq<(ObjectKey, Expr)>, b: Seq<(ObjectKey, Expr)>) -> bool {
    a.len() == b.len() && forall|i: int|
        0 <= i < a.len() ==> ((#[trigger] a[i]).0.view(), a[i].1.view()) == (b[i].0.view(), b[i].1.view())
}

spec fn same_part_views(a: Seq<TemplatePart>, b: Seq<TemplatePart>) -> bool {
    a.len() == b.len() && forall|i: int| 0 <= i < a.len() ==> (#[trigger] a[i]).view() == b[i].view()
}

spec fn same_operator_views(a: Seq<TraversalOperator>, b: Seq<TraversalOperator>) -> bool {
    a.len() == b.len() && forall|i: int| 0 <= i < a.len() ==> (#[trigger] a[i]).view() == b[i].view()
}

fn copy_key(k: &ObjectKey) -> (res: ObjectKey)
    ensures
        res@ == k@,
    decreases k,
{
    match k {
        ObjectKey::Identifier(t) => ObjectKey::Identifier(t.clone()),
        ObjectKey::Expression(e) => ObjectKey::Expression(copy_expr(e)),
    }
}

fn copy_part(p: &TemplatePart) -> (res: TemplatePart)
    ensures
        res@ == p@,
    decreases p,
{
    match p {
        TemplatePart::Literal(t) => TemplatePart::Literal(t.clone()),
        TemplatePart::Interpolation(e) => TemplatePart::Interpolation(copy_expr(e)),
        TemplatePart::Directive { expr, parts, other } => {
            let e = copy_expr(expr);
            let x = copy_parts(parts);
            let y = copy_parts(other);
            proof {
                lemma_directive_view(*expr, *parts, *other);
                lemma_directive_view(e, x, y);
                assert(part_views(x@) =~= part_views(parts@));
                assert(part_views(y@) =~= part_views(other@));
            }
            TemplatePart::Directive { expr: e, parts: x, other: y }
        },
    }
}

fn copy_operator(o: &TraversalOperator) -> (res: TraversalOperator)
    ensures
        res@ == o@,
    decreases o,
{
    match o {
        TraversalOperator::AttrSplat => TraversalOperator::AttrSplat,
        TraversalOperator::FullSplat => TraversalOperator::FullSplat,
        TraversalOperator::GetAttr(t) => TraversalOperator::GetAttr(t.clone()),
        TraversalOperator::Index(e) => TraversalOperator::Index(copy_expr(e)),
        TraversalOperator::LegacyIndex(n) => TraversalOperator::LegacyIndex(*n),
    }
}

/// A copy of a list of expressions.
pub fn copy_exprs(items: &Vec<Expr>) -> (res: Vec<Expr>)
    ensures
        res@.len() == items@.len(),
        forall|i: int| 0 <= i < items@.len() ==> (#[trigger] res@[i]).view() == items@[i].view(),
    decreases items,
{
    let mut out: Vec<Expr> = Vec::new();
    let mut i: usize = 0;
    while i < items.len()
        invariant
            i <= items@.len(),
            out@.len() == i,
            forall|j: int| 0 <= j < i ==> (#[trigger] out@[j]).view() == items@[j].view(),
        decreases items@.len() - i,
    {
        assert(decreases_to!(items => items@[i as int]));
        let item = copy_expr(&items[i]);
        out.push(item);
        i += 1;
    }
    out
}

fn copy_items(items: &Vec<(ObjectKey, Expr)>) -> (res: Vec<(ObjectKey, Expr)>)
    ensures
        res@.len() == items@.len(),
        forall|i: int| 0 <= i < items@.len() ==> ((#[trigger] res@[i]).0.view(), res@[i].1.view()) == (items@[i].0.view(), items@[i].1.view()),
    decreases items,
{
    let mut out: Vec<(ObjectKey, Expr)> = Vec::new();
    let mut i: usize = 0;
    while i < items.len()
        invariant
            i <= items@.len(),
            out@.len() == i,
            forall|j: int| 0 <= j < i ==> ((#[trigger] out@[j]).0.view(), out@[j].1.view()) == (items@[j].0.view(), items@[j].1.view()),
        decreases items@.len() - i,
    {
        assert(decreases_to!(items => items@[i as int]));
        let item = (copy_key(&items[i].0), copy_expr(&items[i].1));
        out.push(item);
        i += 1;
    }
    out
}

fn copy_parts(items: &Vec<TemplatePart>) -> (res: Vec<TemplatePart>)
    ensures
        res@.len() == items@.len(),
        forall|i: int| 0 <= i < items@.len() ==> (#[trigger] res@[i]).view() == items@[i].view(),
    decreases items,
{
    let mut out: Vec<TemplatePart> = Vec::new();
    let mut i: usize = 0;
    while i < items.len()
        invariant
            i <= items@.len(),
            out@.len() == i,
            forall|j: int| 0 <= j < i ==> (#[trigger] out@[j]).view() == items@[j].view(),
        decreases items@.len() - i,
    {
        assert(decreases_to!(items => items@[i as int]));
        let item = copy_part(&items[i]);
        out.push(item);
        i += 1;
    }
    out
}

pub fn copy_operators(items: &Vec<TraversalOperator>) -> (res: Vec<TraversalOperator>)
    ensures
        res@.len() == items@.len(),
        forall|i: int| 0 <= i < items@.len() ==> (#[trigger] res@[i]).view() == items@[i].view(),
    decreases items,
{
    let mut out: Vec<TraversalOperator> = Vec::new();
    let mut i: usize = 0;
    while i < items.len()
        invariant
            i <= items@.len(),
            out@.len() == i,
            forall|j: int| 0 <= j < i ==> (#[trigger] out@[j]).view() == items@[j].view(),
        decreases items@.len() - i,
    {
        assert(decreases_to!(items => items@[i as int]));
        let item = copy_operator(&items[i]);
        out.push(item);
        i += 1;
    }
    out
}

impl Clone for Expr {
    fn clone(&self) -> (res: Self)
        ensures
            res@ == self@,
    {
        copy_expr(self)
    }
}

// ------------------------------------------------------------------ comparing

fn same_heredoc(a: &Option<Heredoc>, b: &Option<Heredoc>) -> (res: bool)
    ensures
        res == ((a is Some <==> b is Some) && (a is Some ==> a->0.view() == b->0.view())),
{
    match (a, b) {
        (Some(x), Some(y)) => x.delimiter == y.delimiter && x.indented == y.indented,
        (None, None) => true,
        _ => false,
    }
}

fn same_opt(a: &Option<String>, b: &Option<String>) -> (res: bool)
    ensures
        res == (opt_text(*a) == opt_text(*b)),
{
    match (a, b) {
        (Some(x), Some(y)) => *x == *y,
        (None, None) => true,
        _ => false,
    }
}

fn same_texts(a: &Vec<String>, b: &Vec<String>) -> (res: bool)
    ensures
        res == (texts(a@) == texts(b@)),
{
    if a.len() != b.len() {
        assert(texts(a@).len() != texts(b@).len());
        return false;
    }
    let mut i: usize = 0;
    while i < a.len()
        invariant
            a@.len() == b@.len(),
            i <= a@.len(),
            forall|j: int| 0 <= j < i ==> texts(a@)[j] == texts(b@)[j],
        decreases a@.len() - i,
    {
        if !(a[i] == b[i]) {
            assert(texts(a@)[i as int] != texts(b@)[i as int]);
            return false;
        }
        assert(texts(a@)[i as int] == texts(b@)[i as int]);
        i += 1;
    }
    assert(texts(a@) =~= texts(b@));
    true
}

fn same_opt_expr(a: &Option<Box<Expr>>, b: &Option<Box<Expr>>) -> (res: bool)
    ensures
        res == ((a is Some <==> b is Some) && (a is Some ==> a->0@ == b->0@)),
    decreases a,
{
    match (a, b) {
        (Some(x), Some(y)) => same_expr(x, y),
        (None, None) => true,
        _ => false,
    }
}

/// Whether two expressions are the same.
pub fn same_expr(a: &Expr, b: &Expr) -> (res: bool)
    ensures
        res == (a@ == b@),
    decreases a,
{
    proof {
        lemma_same_children(*a, *b);
        lemma_children_same(*a, *b);
    }
    match (a, b) {
        (Expr::Null, Expr::Null) => true,
        (Expr::Bool(x), Expr::Bool(y)) => *x == *y,
        (Expr::Number(x), Expr::Number(y)) => same_number(x, y),
        (Expr::String(x), Expr::String(y)) => *x == *y,
        (Expr::Array(x), Expr::Array(y)) => same_exprs(x, y),
        (Expr::Object(x), Expr::Object(y)) => same_items(x, y),
        (Expr::Template { raw: r, heredoc: h, parts: x }, Expr::Template { raw: s, heredoc: i, parts: y }) => {
            if !(*r == *s) || !same_heredoc(h, i) {
                return false;
            }
            match (x, y) {
                (Some(p), Some(q)) => same_parts_list(p, q),
                (None, None) => true,
                _ => false,
            }
        },
        (Expr::Variable(x), Expr::Variable(y)) => *x == *y,
        (Expr::Traversal { expr: e, operators: x }, Expr::Traversal { expr: f, operators: y }) => same_expr(e, f)
            && same_operators(x, y),
        (
            Expr::FuncCall { namespace: n, name: s, args: x, expand_final: p },
            Expr::FuncCall { namespace: m, name: t, args: y, expand_final: q },
        ) => same_texts(n, m) && *s == *t && *p == *q && same_exprs(x, y),
        (Expr::Parenthesis(x), Expr::Parenthesis(y)) => same_expr(x, y),
        (Expr::Conditional { cond: c, yes: y, no: n }, Expr::Conditional { cond: d, yes: z, no: m }) => same_expr(c, d)
            && same_expr(y, z) && same_expr(n, m),
        (Expr::Unary { operator: o, expr: x }, Expr::Unary { operator: p, expr: y }) => *o == *p && same_expr(x, y),
        (Expr::Binary { lhs: l, operator: o, rhs: r }, Expr::Binary { lhs: k, operator: p, rhs: s }) => same_expr(l, k)
            && *o == *p && same_expr(r, s),
        (
            Expr::For { key_var: a0, value_var: a1, collection: a2, key: a3, value: a4, grouping: a5, cond: a6 },
            Expr::For { key_var: b0, value_var: b1, collection: b2, key: b3, value: b4, grouping: b5, cond: b6 },
        ) => same_opt(a0, b0) && *a1 == *b1 && same_expr(a2, b2) && same_opt_expr(a3, b3) && same_expr(a4, b4) && *a5
            == *b5 && same_opt_expr(a6, b6),
        (Expr::Unknown, Expr::Unknown) => true,
        _ => false,
    }
}

/// Expressions that look the same have children that look the same.
proof fn lemma_children_same(a: Expr, b: Expr)
    ensures
        a@ == b@ ==> match (a, b) {
            (Expr::Array(x), Expr::Array(y)) => same_views(x@, y@),
            (Expr::Object(x), Expr::Object(y)) => same_item_views(x@, y@),
            (Expr::Template { raw: r, heredoc: h, parts: Some(x) }, Expr::Template { raw: s, heredoc: i, parts: Some(y) }) => same_part_views(
                x@,
                y@,
            ),
            (Expr::Traversal { expr: e, operators: x }, Expr::Traversal { expr: f, operators: y }) => same_operator_views(
                x@,
                y@,
            ),
            (
                Expr::FuncCall { namespace: n, name: s, args: x, expand_final: p },
                Expr::FuncCall { namespace: m, name: t, args: y, expand_final: q },
            ) => same_views(x@, y@),
            _ => true,
        },
{
    if a@ == b@ {
        match (a, b) {
            (Expr::Array(x), Expr::Array(y)) => {
                let u = a@->Array_0;
                let v = b@->Array_0;
                assert(u.len() == v.len());
                assert forall|i: int| 0 <= i < x@.len() implies (#[trigger] x@[i]).view() == y@[i].view() by {
                    assert(u[i] == v[i]);
                }
            },
            (Expr::Object(x), Expr::Object(y)) => {
                let u = a@->Object_0;
                let v = b@->Object_0;
                assert(u.len() == v.len());
                assert forall|i: int| 0 <= i < x@.len() implies ((#[trigger] x@[i]).0.view(), x@[i].1.view()) == (
                    y@[i].0.view(),
                    y@[i].1.view(),
                ) by {
                    assert(u[i] == v[i]);
                }
            },
            (Expr::Template { raw: r, heredoc: h, parts: Some(x) }, Expr::Template { raw: s, heredoc: j, parts: Some(y) }) => {
                let u = a@->Template_parts->0;
                let v = b@->Template_parts->0;
                assert(u.len() == v.len());
                assert forall|i: int| 0 <= i < x@.len() implies (#[trigger] x@[i]).view() == y@[i].view() by {
                    assert(u[i] == v[i]);
                }
            },
            (Expr::Traversal { expr: e, operators: x }, Expr::Traversal { expr: f, operators: y }) => {
                let u = a@->operators;
                let v = b@->operators;
                assert(u.len() == v.len());
                assert forall|i: int| 0 <= i < x@.len() implies (#[trigger] x@[i]).view() == y@[i].view() by {
                    assert(u[i] == v[i]);
                }
            },
            (
                Expr::FuncCall { namespace: n, name: s, args: x, expand_final: p },
                Expr::FuncCall { namespace: m, name: t, args: y, expand_final: q },
            ) => {
                let u = a@->args;
                let v = b@->args;
                assert(u.len() == v.len());
                assert forall|i: int| 0 <= i < x@.len() implies (#[trigger] x@[i]).view() == y@[i].view() by {
                    assert(u[i] == v[i]);
                }
            },
            _ => {},
        }
    }
}

fn same_key(a: &ObjectKey, b: &ObjectKey) -> (res: bool)
    ensures
        res == (a@ == b@),
    decreases a,
{
    match (a, b) {
        (ObjectKey::Identifier(s), ObjectKey::Identifier(t)) => *s == *t,
        (ObjectKey::Expression(x), ObjectKey::Expression(y)) => same_expr(x, y),
        _ => false,
    }
}

proof fn lemma_part_views_same(a: Seq<TemplatePart>, b: Seq<TemplatePart>)
    ensures
        part_views(a) == part_views(b) <==> same_part_views(a, b),
{
    if part_views(a) == part_views(b) {
        assert(part_views(a).len() == part_views(b).len());
        assert forall|i: int| 0 <= i < a.len() implies (#[trigger] a[i]).view() == b[i].view() by {
            assert(part_views(a)[i] == part_views(b)[i]);
        }
    }
    if same_part_views(a, b) {
        assert(part_views(a) =~= part_views(b));
    }
}

fn same_part(a: &TemplatePart, b: &TemplatePart) -> (res: bool)
    ensures
        res == (a@ == b@),
    decreases a,
{
    match (a, b) {
        (TemplatePart::Literal(s), TemplatePart::Literal(t)) => *s == *t,
        (TemplatePart::Interpolation(x), TemplatePart::Interpolation(y)) => same_expr(x, y),
        (
            TemplatePart::Directive { expr: e, parts: x, other: y },
            TemplatePart::Directive { expr: f, parts: u, other: v },
        ) => {
            proof {
                lemma_directive_view(*e, *x, *y);
                lemma_directive_view(*f, *u, *v);
                lemma_part_views_same(x@, u@);
                lemma_part_views_same(y@, v@);
            }
            same_expr(e, f) && same_parts_list(x, u) && same_parts_list(y, v)
        },
        _ => false,
    }
}

fn same_operator(a: &TraversalOperator, b: &TraversalOperator) -> (res: bool)
    ensures
        res == (a@ == b@),
    decreases a,
{
    match (a, b) {
        (TraversalOperator::AttrSplat, TraversalOperator::AttrSplat) => true,
        (TraversalOperator::FullSplat, TraversalOperator::FullSplat) => true,
        (TraversalOperator::GetAttr(s), TraversalOperator::GetAttr(t)) => *s == *t,
        (TraversalOperator::Index(x), TraversalOperator::Index(y)) => same_expr(x, y),
        (TraversalOperator::LegacyIndex(m), TraversalOperator::LegacyIndex(n)) => *m == *n,
        _ => false,
    }
}

fn same_exprs(a: &Vec<Expr>, b: &Vec<Expr>) -> (res: bool)
    ensures
        res == (a@.len() == b@.len() && forall|i: int| 0 <= i < a@.len() ==> (#[trigger] a@[i]).view() == b@[i].view()),
    decreases a,
{
    if a.len() != b.len() {
        return false;
    }
    let mut i: usize = 0;
    while i < a.len()
        invariant
            a@.len() == b@.len(),
            i <= a@.len(),
            forall|j: int| 0 <= j < i ==> (#[trigger] a@[j]).view() == b@[j].view(),
        decreases a@.len() - i,
    {
        assert(decreases_to!(a => a@[i as int]));
        if !same_expr(&a[i], &b[i]) {
            return false;
        }
        i += 1;
    }
    true
}

fn same_items(a: &Vec<(ObjectKey, Expr)>, b: &Vec<(ObjectKey, Expr)>) -> (res: bool)
    ensures
        res == (a@.len() == b@.len() && forall|i: int| 0 <= i < a@.len() ==> ((#[trigger] a@[i]).0.view(), a@[i].1.view()) == (b@[i].0.view(), b@[i].1.view())),
    decreases a,
{
    if a.len() != b.len() {
        return false;
    }
    let mut i: usize = 0;
    while i < a.len()
        invariant
            a@.len() == b@.len(),
            i <= a@.len(),
            forall|j: int| 0 <= j < i ==> ((#[trigger] a@[j]).0.view(), a@[j].1.view()) == (b@[j].0.view(), b@[j].1.view()),
        decreases a@.len() - i,
    {
        assert(decreases_to!(a => a@[i as int]));
        if !(same_key(&a[i].0, &b[i].0) && same_expr(&a[i].1, &b[i].1)) {
            return false;
        }
        i += 1;
    }
    true
}

fn same_parts_list(a: &Vec<TemplatePart>, b: &Vec<TemplatePart>) -> (res: bool)
    ensures
        res == (a@.len() == b@.len() && forall|i: int| 0 <= i < a@.len() ==> (#[trigger] a@[i]).view() == b@[i].view()),
    decreases a,
{
    if a.len() != b.len() {
        return false;
    }
    let mut i: usize = 0;
    while i < a.len()
        invariant
            a@.len() == b@.len(),
            i <= a@.len(),
            forall|j: int| 0 <= j < i ==> (#[trigger] a@[j]).view() == b@[j].view(),
        decreases a@.len() - i,
    {
        assert(decreases_to!(a => a@[i as int]));
        if !same_part(&a[i], &b[i]) {
            return false;
        }
        i += 1;
    }
    true
}

fn same_operators(a: &Vec<TraversalOperator>, b: &Vec<TraversalOperator>) -> (res: bool)
    ensures
        res == (a@.len() == b@.len() && forall|i: int| 0 <= i < a@.len() ==> (#[trigger] a@[i]).view() == b@[i].view()),
    decreases a,
{
    if a.len() != b.len() {
        return false;
    }
    let mut i: usize = 0;
    while i < a.len()
        invariant
            a@.len() == b@.len(),
            i <= a@.len(),
            forall|j: int| 0 <= j < i ==> (#[trigger] a@[j]).view() == b@[j].view(),
        decreases a@.len() - i,
    {
        assert(decreases_to!(a => a@[i as int]));
        if !same_operator(&a[i], &b[i]) {
            return false;
        }
        i += 1;
    }
    true
}

// --------------------------------------------------------------------- values

/// A value. The keys of an object are distinct; they come in order of first insertion.
#[derive(Debug, PartialEq, Eq)]
pub enum HclValue {
    Null,
    Bool(bool),
    Number(Number),
    String(String),
    Array(Vec<HclValue>),
    Object(Vec<(String, HclValue)>),
}

/// What a value is.
pub enum ValueView {
    Null,
    Bool(bool),
    Number(NumberView),
    String(Seq<char>),
    Array(Seq<ValueView>),
    Object(Seq<(Seq<char>, ValueView)>),
}

impl HclValue {
    pub open spec fn view(&self) -> ValueView
        decreases self,
    {
        match self {
            HclValue::Null => ValueView::Null,
            HclValue::Bool(b) => ValueView::Bool(*b),
            HclValue::Number(n) => ValueView::Number(n.view()),
            HclValue::String(t) => ValueView::String(t@),
            HclValue::Array(items) => ValueView::Array(
                Seq::new(
                    items@.len(),
                    |i: int|
                        if 0 <= i < items@.len() {
                            items@[i].view()
                        } else {
                            ValueView::Null
                        },
                ),
            ),
            HclValue::Object(items) => ValueView::Object(
                Seq::new(
                    items@.len(),
                    |i: int|
                        if 0 <= i < items@.len() {
                            (items@[i].0@, items@[i].1.view())
                        } else {
                            (Seq::empty(), ValueView::Null)
                        },
                ),
            ),
        }
    }
}

/// The views of a list of values.
pub open spec fn value_views(items: Seq<HclValue>) -> Seq<ValueView> {
    items.map_values(|v: HclValue| v.view())
}

/// The views of the items of an object.
pub open spec fn entry_views(items: Seq<(String, HclValue)>) -> Seq<(Seq<char>, ValueView)> {
    items.map_values(|p: (String, HclValue)| (p.0@, p.1.view()))
}

pub proof fn lemma_array_view(items: Vec<HclValue>)
    ensures
        HclValue::Array(items)@ == ValueView::Array(value_views(items@)),
{
    assert(HclValue::Array(items)@->Array_0 =~= value_views(items@));
}

pub proof fn lemma_object_view(items: Vec<(String, HclValue)>)
    ensures
        HclValue::Object(items)@ == ValueView::Object(entry_views(items@)),
{
    assert(HclValue::Object(items)@->Object_0 =~= entry_views(items@));
}

/// A copy of a value.
pub fn copy_value(v: &HclValue) -> (res: HclValue)
    ensures
        res@ == v@,
    decreases v,
{
    match v {
        HclValue::Null => HclValue::Null,
        HclValue::Bool(b) => HclValue::Bool(*b),
        HclValue::Number(n) => HclValue::Number(n.clone()),
        HclValue::String(t) => HclValue::String(t.clone()),
        HclValue::Array(items) => {
            let out = copy_values(items);
            proof {
                lemma_array_view(out);
                lemma_array_view(*items);
                assert(value_views(out@) =~= value_views(items@));
            }
            HclValue::Array(out)
        },
        HclValue::Object(items) => {
            let out = copy_entries(items);
            proof {
                lemma_object_view(out);
                lemma_object_view(*items);
                assert(entry_views(out@) =~= entry_views(items@));
            }
            HclValue::Object(out)
        },
    }
}

impl Clone for HclValue {
    fn clone(&self) -> (res: Self)
        ensures
            res@ == self@,
    {
        copy_value(self)
    }
}

/// Whether two values are the same, down to the order of the keys.
pub fn same_value(a: &HclValue, b: &HclValue) -> (res: bool)
    ensures
        res == (a@ == b@),
    decreases a,
{
    match (a, b) {
        (HclValue::Null, HclValue::Null) => true,
        (HclValue::Bool(x), HclValue::Bool(y)) => *x == *y,
        (HclValue::Number(x), HclValue::Number(y)) => same_number(x, y),
        (HclValue::String(x), HclValue::String(y)) => *x == *y,
        (HclValue::Array(x), HclValue::Array(y)) => {
            proof {
                lemma_array_view(*x);
                lemma_array_view(*y);
                let u = value_views(x@);
                let v = value_views(y@);
                if u == v {
                    assert(u.len() == v.len());
                    assert forall|i: int| 0 <= i < x@.len() implies (#[trigger] x@[i]).view() == y@[i].view() by {
                        assert(u[i] == v[i]);
                    }
                }
                if x@.len() == y@.len() && forall|i: int| 0 <= i < x@.len() ==> (#[trigger] x@[i]).view() == y@[i].view() {
                    assert(u =~= v);
                }
            }
            same_values(x, y)
        },
        (HclValue::Object(x), HclValue::Object(y)) => {
            proof {
                lemma_object_view(*x);
                lemma_object_view(*y);
                let u = entry_views(x@);
                let v = entry_views(y@);
                if u == v {
                    assert(u.len() == v.len());
                    assert forall|i: int| 0 <= i < x@.len() implies ((#[trigger] x@[i]).0@, x@[i].1.view()) == (
                        y@[i].0@,
                        y@[i].1.view(),
                    ) by {
                        assert(u[i] == v[i]);
                    }
                }
                if x@.len() == y@.len() && forall|i: int|
                    0 <= i < x@.len() ==> ((#[trigger] x@[i]).0@, x@[i].1.view()) == (y@[i].0@, y@[i].1.view()) {
                    assert(u =~= v);
                }
            }
            same_entries(x, y)
        },
        _ => false,
    }
}

/// A copy of a list of values.
pub fn copy_values(items: &Vec<HclValue>) -> (res: Vec<HclValue>)
    ensures
        res@.len() == items@.len(),
        forall|i: int| 0 <= i < items@.len() ==> (#[trigger] res@[i]).view() == items@[i].view(),
    decreases items,
{
    let mut out: Vec<HclValue> = Vec::new();
    let mut i: usize = 0;
    while i < items.len()
        invariant
            i <= items@.len(),
            out@.len() == i,
            forall|j: int| 0 <= j < i ==> (#[trigger] out@[j]).view() == items@[j].view(),
        decreases items@.len() - i,
    {
        assert(decreases_to!(items => items@[i as int]));
        let item = copy_value(&items[i]);
        out.push(item);
        i += 1;
    }
    out
}

/// A copy of the items of an object.
pub fn copy_entries(items: &Vec<(String, HclValue)>) -> (res: Vec<(String, HclValue)>)
    ensures
        res@.len() == items@.len(),
        forall|i: int| 0 <= i < items@.len() ==> ((#[trigger] res@[i]).0@, res@[i].1.view()) == (items@[i].0@, items@[i].1.view()),
    decreases items,
{
    let mut out: Vec<(String, HclValue)> = Vec::new();
    let mut i: usize = 0;
    while i < items.len()
        invariant
            i <= items@.len(),
            out@.len() == i,
            forall|j: int| 0 <= j < i ==> ((#[trigger] out@[j]).0@, out@[j].1.view()) == (items@[j].0@, items@[j].1.view()),
        decreases items@.len() - i,
    {
        assert(decreases_to!(items => items@[i as int]));
        let item = (items[i].0.clone(), copy_value(&items[i].1));
        out.push(item);
        i += 1;
    }
    out
}

fn same_values(a: &Vec<HclValue>, b: &Vec<HclValue>) -> (res: bool)
    ensures
        res == (a@.len() == b@.len() && forall|i: int| 0 <= i < a@.len() ==> (#[trigger] a@[i]).view() == b@[i].view()),
    decreases a,
{
    if a.len() != b.len() {
        return false;
    }
    let mut i: usize = 0;
    while i < a.len()
        invariant
            a@.len() == b@.len(),
            i <= a@.len(),
            forall|j: int| 0 <= j < i ==> (#[trigger] a@[j]).view() == b@[j].view(),
        decreases a@.len() - i,
    {
        assert(decreases_to!(a => a@[i as int]));
        if !same_value(&a[i], &b[i]) {
            return false;
        }
        i += 1;
    }
    true
}

fn same_entries(a: &Vec<(String, HclValue)>, b: &Vec<(String, HclValue)>) -> (res: bool)
    ensures
        res == (a@.len() == b@.len() && forall|i: int| 0 <= i < a@.len() ==> ((#[trigger] a@[i]).0@, a@[i].1.view()) == (b@[i].0@, b@[i].1.view())),
    decreases a,
{
    if a.len() != b.len() {
        return false;
    }
    let mut i: usize = 0;
    while i < a.len()
        invariant
            a@.len() == b@.len(),
            i <= a@.len(),
            forall|j: int| 0 <= j < i ==> ((#[trigger] a@[j]).0@, a@[j].1.view()) == (b@[j].0@, b@[j].1.view()),
        decreases a@.len() - i,
    {
        assert(decreases_to!(a => a@[i as int]));
        if !(a[i].0 == b[i].0 && same_value(&a[i].1, &b[i].1)) {
            return false;
        }
        i += 1;
    }
    true
}


// --------------------------------------------------------------------- bodies

/// An attribute: a key with an expression.
#[derive(Debug, PartialEq, Eq)]
pub struct Attribute {
    pub key: String,
    pub expr: Expr,
}

/// A block: an identifier, labels, and a body.
#[derive(Debug, PartialEq, Eq)]
pub struct Block {
    pub identifier: String,
    pub labels: Vec<String>,
    pub body: Contents,
}

/// What a body is made of.
#[derive(Debug, PartialEq, Eq)]
pub enum Structure {
    Attribute(Attribute),
    Block(Block),
}

/// The body of a file or of a block.
#[derive(Debug, PartialEq, Eq)]
pub struct Contents {
    pub items: Vec<Structure>,
}

pub struct AttributeView {
    pub key: Seq<char>,
    pub expr: ExprView,
}

pub struct BlockView {
    pub identifier: Seq<char>,
    pub labels: Seq<Seq<char>>,
    pub body: ContentsView,
}

pub enum StructureView {
    Attribute(AttributeView),
    Block(BlockView),
}

pub struct ContentsView {
    pub items: Seq<StructureView>,
}

impl Attribute {
    pub open spec fn view(&self) -> AttributeView {
        AttributeView { key: self.key@, expr: self.expr.view() }
    }
}

impl Block {
    pub open spec fn view(&self) -> BlockView
        decreases self,
    {
        BlockView { identifier: self.identifier@, labels: texts(self.labels@), body: self.body.view() }
    }
}

impl Structure {
    pub open spec fn view(&self) -> StructureView
        decreases self,
    {
        match self {
            Structure::Attribute(a) => StructureView::Attribute(a.view()),
            Structure::Block(b) => StructureView::Block(b.view()),
        }
    }
}

impl Contents {
    pub open spec fn view(&self) -> ContentsView
        decreases self,
    {
        ContentsView {
            items: Seq::new(
                self.items@.len(),
                |i: int|
                    if 0 <= i < self.items@.len() {
                        self.items@[i].view()
                    } else {
                        StructureView::Attribute(AttributeView { key: Seq::empty(), expr: ExprView::Null })
                    },
            ),
        }
    }
}

} // verus!
