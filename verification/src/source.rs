//! Reading HCL text: `hcl` parses it, and what it yields is taken apart into the syntax tree.

use crate::syntax::{
    Attribute, Block, Contents, Expr, Heredoc, Number, ObjectKey, Structure, TemplatePart, TraversalOperator,
};
#[allow(unused_imports)]
use crate::syntax::{
    AttributeView, BlockView, ContentsView, ExprView, HeredocView, KeyView, OperatorView, StructureView,
    TemplatePartView,
};
#[allow(unused_imports)]
use crate::text::{opt_text, texts};
use vstd::prelude::*;

verus! {

#[verifier::external_type_specification]
#[verifier::external_body]
pub struct ExBody(hcl::Body);

#[verifier::external_type_specification]
#[verifier::external_body]
pub struct ExExpression(hcl::Expression);

#[verifier::external_type_specification]
#[verifier::external_body]
pub struct ExElement(hcl::template::Element);

/// What a body of `hcl` holds.
pub uninterp spec fn body_of(b: hcl::Body) -> ContentsView;

/// What an expression of `hcl` holds.
pub uninterp spec fn expr_of(e: hcl::Expression) -> ExprView;

/// What an element of a template of `hcl` holds.
pub uninterp spec fn part_of(e: hcl::template::Element) -> TemplatePartView;

/// The body that a text is parsed to, by the rules of `hcl`; the message of the parser where it is
/// not HCL.
pub uninterp spec fn parsed_body(text: Seq<char>) -> Result<ContentsView, Seq<char>>;

/// Calls `hcl::from_str`: the body that the text is parsed to, or the message of the error. What
/// is HCL, and what the message says, is left to `hcl`; both are functions of the text.
#[verifier::external_body]
fn parse_text(text: &str) -> (res: Result<hcl::Body, String>)
    ensures
        match res {
            Ok(b) => parsed_body(text@) == Ok::<ContentsView, Seq<char>>(body_of(b)),
            Err(m) => parsed_body(text@) == Err::<ContentsView, Seq<char>>(m@),
        },
{
    match hcl::from_str::<hcl::Body>(text) {
        Ok(b) => Ok(b),
        Err(e) => Err(e.to_string()),
    }
}

// ---------------------------------------------------------------------- bodies

/// An item of a body of `hcl`.
enum BodyItem {
    Attribute(String, hcl::Expression),
    Block(String, Vec<String>, hcl::Body),
}

spec fn item_view(i: BodyItem) -> StructureView {
    match i {
        BodyItem::Attribute(key, expr) => StructureView::Attribute(AttributeView { key: key@, expr: expr_of(expr) }),
        BodyItem::Block(identifier, labels, body) => StructureView::Block(
            BlockView { identifier: identifier@, labels: texts(labels@), body: body_of(body) },
        ),
    }
}

/// Takes a body apart, with `hcl::Body::into_inner`: its attributes, with their keys and
/// expressions, and its blocks, with their identifiers, labels and bodies, in order.
#[verifier::external_body]
fn open_body(b: hcl::Body) -> (res: Vec<BodyItem>)
    ensures
        body_of(b).items == res@.map_values(|i: BodyItem| item_view(i)),
{
    let open = |s: hcl::Structure| match s {
        hcl::Structure::Attribute(a) => BodyItem::Attribute(a.key.to_string(), a.expr),
        hcl::Structure::Block(b) => BodyItem::Block(
            b.identifier.to_string(),
            b.labels.into_iter().map(|l| l.as_str().to_owned()).collect(),
            b.body,
        ),
    };
    b.into_inner().into_iter().map(open).collect()
}

// ----------------------------------------------------------------- expressions

/// One level of an expression of `hcl`.
enum Shape {
    Null,
    Bool(bool),
    Number(Number),
    String(String),
    Array(Vec<hcl::Expression>),
    Object(Vec<(KeyShape, hcl::Expression)>),
    Template(String, Option<Vec<hcl::template::Element>>),
    Variable(String),
    Traversal(hcl::Expression, Vec<OperatorShape>),
    FuncCall(Vec<String>, String, Vec<hcl::Expression>, bool),
    Parenthesis(hcl::Expression),
    Conditional(hcl::Expression, hcl::Expression, hcl::Expression),
    Unary(String, hcl::Expression),
    Binary(hcl::Expression, String, hcl::Expression),
    For(ForShape),
    /// None of those that the opener is for
    Other,
}

enum KeyShape {
    Identifier(String),
    Expression(hcl::Expression),
}

enum PartShape {
    Literal(String),
    Interpolation(hcl::Expression),
    Directive(hcl::Expression, Vec<hcl::template::Element>, Vec<hcl::template::Element>),
}

enum OperatorShape {
    AttrSplat,
    FullSplat,
    GetAttr(String),
    Index(hcl::Expression),
    LegacyIndex(u64),
}

struct ForShape {
    key_var: Option<String>,
    value_var: String,
    collection: hcl::Expression,
    key: Option<hcl::Expression>,
    value: hcl::Expression,
    grouping: bool,
    cond: Option<hcl::Expression>,
}

spec fn key_view(k: KeyShape) -> KeyView {
    match k {
        KeyShape::Identifier(t) => KeyView::Identifier(t@),
        KeyShape::Expression(e) => KeyView::Expression(expr_of(e)),
    }
}

spec fn part_view(p: PartShape) -> TemplatePartView {
    match p {
        PartShape::Literal(t) => TemplatePartView::Literal(t@),
        PartShape::Interpolation(e) => TemplatePartView::Interpolation(expr_of(e)),
        PartShape::Directive(e, parts, other) => TemplatePartView::Directive {
            expr: expr_of(e),
            parts: parts_of(parts@),
            other: parts_of(other@),
        },
    }
}

spec fn operator_view(o: OperatorShape) -> OperatorView {
    match o {
        OperatorShape::AttrSplat => OperatorView::AttrSplat,
        OperatorShape::FullSplat => OperatorView::FullSplat,
        OperatorShape::GetAttr(t) => OperatorView::GetAttr(t@),
        OperatorShape::Index(e) => OperatorView::Index(expr_of(e)),
        OperatorShape::LegacyIndex(n) => OperatorView::LegacyIndex(n),
    }
}

spec fn boxed(e: Option<hcl::Expression>) -> Option<Box<ExprView>> {
    match e {
        Some(x) => Some(Box::new(expr_of(x))),
        None => None,
    }
}

/// The expression that a level stands for; a template is one without a heredoc.
spec fn shape_view(s: Shape) -> ExprView {
    match s {
        Shape::Null => ExprView::Null,
        Shape::Bool(b) => ExprView::Bool(b),
        Shape::Number(n) => ExprView::Number(n@),
        Shape::String(t) => ExprView::String(t@),
        Shape::Array(items) => ExprView::Array(items@.map_values(|e: hcl::Expression| expr_of(e))),
        Shape::Object(items) => ExprView::Object(
            items@.map_values(|p: (KeyShape, hcl::Expression)| (key_view(p.0), expr_of(p.1))),
        ),
        Shape::Template(raw, parts) => ExprView::Template {
            raw: raw@,
            heredoc: None,
            parts: match parts {
                Some(items) => Some(parts_of(items@)),
                None => None,
            },
        },
        Shape::Variable(t) => ExprView::Variable(t@),
        Shape::Traversal(e, operators) => ExprView::Traversal {
            expr: Box::new(expr_of(e)),
            operators: operators@.map_values(|o: OperatorShape| operator_view(o)),
        },
        Shape::FuncCall(namespace, name, args, expand_final) => ExprView::FuncCall {
            namespace: texts(namespace@),
            name: name@,
            args: args@.map_values(|e: hcl::Expression| expr_of(e)),
            expand_final,
        },
        Shape::Parenthesis(e) => ExprView::Parenthesis(Box::new(expr_of(e))),
        Shape::Conditional(c, y, n) => ExprView::Conditional {
            cond: Box::new(expr_of(c)),
            yes: Box::new(expr_of(y)),
            no: Box::new(expr_of(n)),
        },
        Shape::Unary(o, e) => ExprView::Unary { operator: o@, expr: Box::new(expr_of(e)) },
        Shape::Binary(l, o, r) => ExprView::Binary {
            lhs: Box::new(expr_of(l)),
            operator: o@,
            rhs: Box::new(expr_of(r)),
        },
        Shape::For(f) => ExprView::For {
            key_var: opt_text(f.key_var),
            value_var: f.value_var@,
            collection: Box::new(expr_of(f.collection)),
            key: boxed(f.key),
            value: Box::new(expr_of(f.value)),
            grouping: f.grouping,
            cond: boxed(f.cond),
        },
        Shape::Other => ExprView::Unknown,
    }
}

/// Tells the variants of `hcl::Expression` apart that hold plain values, a list of expressions or
/// one expression, and takes out what they hold.
#[verifier::external_body]
fn open_simple(e: &hcl::Expression) -> (res: Shape)
    ensures
        match res {
            Shape::Other => !(expr_of(*e) is Null || expr_of(*e) is Bool || expr_of(*e) is String || expr_of(*e) is Array || expr_of(*e) is Variable || expr_of(*e) is Parenthesis),
            _ => expr_of(*e) == shape_view(res),
        },
{
    match e.clone() {
        hcl::Expression::Null => Shape::Null,
        hcl::Expression::Bool(b) => Shape::Bool(b),
        hcl::Expression::String(t) => Shape::String(t),
        hcl::Expression::Array(items) => Shape::Array(items),
        hcl::Expression::Variable(v) => Shape::Variable(v.to_string()),
        hcl::Expression::Parenthesis(e) => Shape::Parenthesis(*e),
        _ => Shape::Other,
    }
}

/// Takes out the number of `hcl::Expression::Number`: as an integer where
/// `hcl::Number::as_u64` or `hcl::Number::as_i64` gives one, else in its notation.
#[verifier::external_body]
fn open_number(e: &hcl::Expression) -> (res: Shape)
    ensures
        match res {
            Shape::Other => !(expr_of(*e) is Number),
            _ => expr_of(*e) == shape_view(res),
        },
{
    match e {
        hcl::Expression::Number(n) => Shape::Number(match (n.as_u64(), n.as_i64()) {
            (Some(u), _) => Number::PosInt(u),
            (None, Some(i)) => Number::NegInt(i),
            (None, None) => Number::Float(n.to_string()),
        }),
        _ => Shape::Other,
    }
}

/// Takes out the items of `hcl::Expression::Object`. A key is an identifier or an expression:
/// `hcl::ObjectKey` is open for other variants, but has none.
#[verifier::external_body]
fn open_object(e: &hcl::Expression) -> (res: Shape)
    ensures
        match res {
            Shape::Other => !(expr_of(*e) is Object),
            _ => expr_of(*e) == shape_view(res),
        },
{
    let key = |k: hcl::ObjectKey| match k {
        hcl::ObjectKey::Identifier(i) => KeyShape::Identifier(i.to_string()),
        hcl::ObjectKey::Expression(e) => KeyShape::Expression(e),
        _ => KeyShape::Expression(hcl::Expression::Null),
    };
    match e.clone() {
        hcl::Expression::Object(m) => Shape::Object(m.into_iter().map(|(k, v)| (key(k), v)).collect()),
        _ => Shape::Other,
    }
}

/// Takes out what `hcl::Expression::FuncCall` and `hcl::Expression::Conditional` hold.
#[verifier::external_body]
fn open_call(e: &hcl::Expression) -> (res: Shape)
    ensures
        match res {
            Shape::Other => !(expr_of(*e) is FuncCall || expr_of(*e) is Conditional),
            _ => expr_of(*e) == shape_view(res),
        },
{
    match e.clone() {
        hcl::Expression::FuncCall(f) => Shape::FuncCall(
            f.name.namespace.iter().map(|i| i.to_string()).collect(),
            f.name.name.to_string(),
            f.args,
            f.expand_final,
        ),
        hcl::Expression::Conditional(c) => Shape::Conditional(c.cond_expr, c.true_expr, c.false_expr),
        _ => Shape::Other,
    }
}

/// Takes out what `hcl::Expression::Traversal` holds.
#[verifier::external_body]
fn open_traversal(e: &hcl::Expression) -> (res: Shape)
    ensures
        match res {
            Shape::Other => !(expr_of(*e) is Traversal),
            _ => expr_of(*e) == shape_view(res),
        },
{
    let step = |o: hcl::expr::TraversalOperator| match o {
        hcl::expr::TraversalOperator::AttrSplat => OperatorShape::AttrSplat,
        hcl::expr::TraversalOperator::FullSplat => OperatorShape::FullSplat,
        hcl::expr::TraversalOperator::GetAttr(i) => OperatorShape::GetAttr(i.to_string()),
        hcl::expr::TraversalOperator::Index(e) => OperatorShape::Index(e),
        hcl::expr::TraversalOperator::LegacyIndex(n) => OperatorShape::LegacyIndex(n),
    };
    match e.clone() {
        hcl::Expression::Traversal(t) => Shape::Traversal(t.expr, t.operators.into_iter().map(step).collect()),
        _ => Shape::Other,
    }
}

/// Takes out what `hcl::Expression::Operation` holds, the operator by its symbol.
#[verifier::external_body]
fn open_operation(e: &hcl::Expression) -> (res: Shape)
    ensures
        match res {
            Shape::Other => !(expr_of(*e) is Unary || expr_of(*e) is Binary),
            _ => expr_of(*e) == shape_view(res),
        },
{
    match e.clone() {
        hcl::Expression::Operation(o) => match *o {
            hcl::expr::Operation::Unary(u) => Shape::Unary(u.operator.as_str().to_owned(), u.expr),
            hcl::expr::Operation::Binary(b) => {
                Shape::Binary(b.lhs_expr, b.operator.as_str().to_owned(), b.rhs_expr)
            },
        },
        _ => Shape::Other,
    }
}

/// Takes out what `hcl::Expression::ForExpr` holds.
#[verifier::external_body]
fn open_for(e: &hcl::Expression) -> (res: Shape)
    ensures
        match res {
            Shape::Other => !(expr_of(*e) is For),
            _ => expr_of(*e) == shape_view(res),
        },
{
    match e.clone() {
        hcl::Expression::ForExpr(f) => Shape::For(ForShape {
            key_var: f.key_var.map(|i| i.to_string()),
            value_var: f.value_var.to_string(),
            collection: f.collection_expr,
            key: f.key_expr,
            value: f.value_expr,
            grouping: f.grouping,
            cond: f.cond_expr,
        }),
        _ => Shape::Other,
    }
}

/// Takes out the raw text of `hcl::Expression::TemplateExpr`, and its elements as
/// `hcl::Template::from_expr` reads them.
#[verifier::external_body]
fn open_template(e: &hcl::Expression) -> (res: Shape)
    ensures
        match res {
            Shape::Other => !(expr_of(*e) is Template),
            _ => expr_of(*e) is Template && shape_view(res) == (ExprView::Template {
                raw: expr_of(*e)->raw,
                heredoc: None,
                parts: expr_of(*e)->Template_parts,
            }),
        },
{
    match e {
        hcl::Expression::TemplateExpr(t) => {
            Shape::Template(t.to_string(), hcl::Template::from_expr(t).ok().map(|t| t.elements().to_vec()))
        },
        _ => Shape::Other,
    }
}

/// Tells the variants of `hcl::template::Element` apart, and takes out what they hold: a text, an
/// expression, or a directive. Of an `if` that is the condition and the elements of its branches,
/// none where it has no `else`; of a `for` the collection and the elements that are repeated.
#[verifier::external_body]
fn open_element(e: &hcl::template::Element) -> (res: PartShape)
    ensures
        part_of(*e) == part_view(res),
{
    match e.clone() {
        hcl::template::Element::Literal(t) => PartShape::Literal(t),
        hcl::template::Element::Interpolation(i) => PartShape::Interpolation(i.expr),
        hcl::template::Element::Directive(d) => match *d {
            hcl::template::Directive::If(d) => PartShape::Directive(
                d.cond_expr,
                d.true_template.elements().to_vec(),
                d.false_template.map(|t| t.elements().to_vec()).unwrap_or_default(),
            ),
            hcl::template::Directive::For(d) => {
                PartShape::Directive(d.collection_expr, d.template.elements().to_vec(), Vec::new())
            },
        },
    }
}

/// Takes out the delimiter and the strip mode where `hcl::Expression::TemplateExpr` is a heredoc.
#[verifier::external_body]
fn open_heredoc(e: &hcl::Expression) -> (res: Option<Heredoc>)
    ensures
        expr_of(*e) is Template ==> heredoc_view(res) == expr_of(*e)->heredoc,
{
    let indented = |m: hcl::expr::HeredocStripMode| match m {
        hcl::expr::HeredocStripMode::None => false,
        hcl::expr::HeredocStripMode::Indent => true,
    };
    match e {
        hcl::Expression::TemplateExpr(t) => match &**t {
            hcl::expr::TemplateExpr::QuotedString(_) => None,
            hcl::expr::TemplateExpr::Heredoc(h) => {
                Some(Heredoc { delimiter: h.delimiter.to_string(), indented: indented(h.strip) })
            },
        },
        _ => None,
    }
}

spec fn heredoc_view(h: Option<Heredoc>) -> Option<HeredocView> {
    match h {
        Some(x) => Some(x@),
        None => None,
    }
}

// ------------------------------------------------------------- building the tree

spec fn exprs_of(items: Seq<hcl::Expression>) -> Seq<ExprView> {
    items.map_values(|e: hcl::Expression| expr_of(e))
}

fn build_all(items: &Vec<hcl::Expression>) -> (res: Vec<Expr>)
    ensures
        crate::syntax::expr_views(res@) == exprs_of(items@),
    decreases exprs_of(items@),
{
    let ghost views = exprs_of(items@);
    let mut out: Vec<Expr> = Vec::new();
    let mut i: usize = 0;
    while i < items.len()
        invariant
            i <= items@.len(),
            views == exprs_of(items@),
            out@.len() == i,
            forall|j: int| 0 <= j < i ==> (#[trigger] out@[j])@ == views[j],
        decreases items@.len() - i,
    {
        assert(views[i as int] == expr_of(items@[i as int]));
        assert(decreases_to!(views => views[i as int]));
        let e = build_expr(&items[i]);
        out.push(e);
        i += 1;
    }
    assert(crate::syntax::expr_views(out@) =~= views);
    out
}

fn build_opt(e: &Option<hcl::Expression>) -> (res: Option<Box<Expr>>)
    ensures
        res is Some <==> e is Some,
        res is Some ==> res->0@ == expr_of(e->0),
    decreases boxed(*e),
{
    match e {
        Some(x) => {
            assert(decreases_to!(boxed(*e) => boxed(*e)->0));
            Some(Box::new(build_expr(x)))
        },
        None => None,
    }
}

spec fn items_of(items: Seq<(KeyShape, hcl::Expression)>) -> Seq<(KeyView, ExprView)> {
    items.map_values(|p: (KeyShape, hcl::Expression)| (key_view(p.0), expr_of(p.1)))
}

fn build_items(items: &Vec<(KeyShape, hcl::Expression)>) -> (res: Vec<(ObjectKey, Expr)>)
    ensures
        res@.len() == items@.len(),
        forall|i: int| 0 <= i < items@.len() ==> ((#[trigger] res@[i]).0@, res@[i].1@) == items_of(items@)[i],
    decreases items_of(items@),
{
    let ghost views = items_of(items@);
    let mut out: Vec<(ObjectKey, Expr)> = Vec::new();
    let mut i: usize = 0;
    while i < items.len()
        invariant
            i <= items@.len(),
            views == items_of(items@),
            out@.len() == i,
            forall|j: int| 0 <= j < i ==> ((#[trigger] out@[j]).0@, out@[j].1@) == views[j],
        decreases items@.len() - i,
    {
        assert(views[i as int] == (key_view(items@[i as int].0), expr_of(items@[i as int].1)));
        assert(decreases_to!(views => views[i as int]));
        assert(decreases_to!(views[i as int] => views[i as int].0));
        assert(decreases_to!(views[i as int] => views[i as int].1));
        assert(items@[i as int].0 is Expression ==> decreases_to!(views[i as int].0 => views[i as int].0->Expression_0));
        let key = match &items[i].0 {
            KeyShape::Identifier(t) => ObjectKey::Identifier(t.clone()),
            KeyShape::Expression(e) => ObjectKey::Expression(build_expr(e)),
        };
        let value = build_expr(&items[i].1);
        out.push((key, value));
        i += 1;
    }
    out
}

/// What the elements of a template hold.
spec fn parts_of(items: Seq<hcl::template::Element>) -> Seq<TemplatePartView> {
    items.map_values(|e: hcl::template::Element| part_of(e))
}

fn build_parts(items: &Vec<hcl::template::Element>) -> (res: Vec<TemplatePart>)
    ensures
        crate::syntax::part_views(res@) == parts_of(items@),
    decreases parts_of(items@),
{
    let ghost views = parts_of(items@);
    let mut out: Vec<TemplatePart> = Vec::new();
    let mut i: usize = 0;
    while i < items.len()
        invariant
            i <= items@.len(),
            views == parts_of(items@),
            out@.len() == i,
            forall|j: int| 0 <= j < i ==> (#[trigger] out@[j])@ == views[j],
        decreases items@.len() - i,
    {
        let ghost v = part_of(items@[i as int]);
        proof {
            assert(views[i as int] == v);
            assert(decreases_to!(views => views[i as int]));
            assert(v is Interpolation ==> decreases_to!(v => v->Interpolation_0));
            assert(v is Directive ==> decreases_to!(v => v->Directive_expr) && decreases_to!(v => v->parts)
                && decreases_to!(v => v->other));
        }
        let part = match open_element(&items[i]) {
            PartShape::Literal(t) => TemplatePart::Literal(t),
            PartShape::Interpolation(e) => TemplatePart::Interpolation(build_expr(&e)),
            PartShape::Directive(e, parts, other) => {
                let expr = build_expr(&e);
                let x = build_parts(&parts);
                let y = build_parts(&other);
                proof {
                    crate::syntax::lemma_directive_view(expr, x, y);
                }
                TemplatePart::Directive { expr, parts: x, other: y }
            },
        };
        out.push(part);
        i += 1;
    }
    assert(crate::syntax::part_views(out@) =~= views);
    out
}

spec fn operators_of(items: Seq<OperatorShape>) -> Seq<OperatorView> {
    items.map_values(|o: OperatorShape| operator_view(o))
}

fn build_operators(items: &Vec<OperatorShape>) -> (res: Vec<TraversalOperator>)
    ensures
        res@.len() == items@.len(),
        forall|i: int| 0 <= i < items@.len() ==> (#[trigger] res@[i])@ == operators_of(items@)[i],
    decreases operators_of(items@),
{
    let ghost views = operators_of(items@);
    let mut out: Vec<TraversalOperator> = Vec::new();
    let mut i: usize = 0;
    while i < items.len()
        invariant
            i <= items@.len(),
            views == operators_of(items@),
            out@.len() == i,
            forall|j: int| 0 <= j < i ==> (#[trigger] out@[j])@ == views[j],
        decreases items@.len() - i,
    {
        assert(views[i as int] == operator_view(items@[i as int]));
        assert(decreases_to!(views => views[i as int]));
        assert(items@[i as int] is Index ==> decreases_to!(views[i as int] => views[i as int]->Index_0));
        let o = match &items[i] {
            OperatorShape::AttrSplat => TraversalOperator::AttrSplat,
            OperatorShape::FullSplat => TraversalOperator::FullSplat,
            OperatorShape::GetAttr(t) => TraversalOperator::GetAttr(t.clone()),
            OperatorShape::Index(e) => TraversalOperator::Index(build_expr(e)),
            OperatorShape::LegacyIndex(n) => TraversalOperator::LegacyIndex(*n),
        };
        out.push(o);
        i += 1;
    }
    out
}

/// The expression, as a tree.
fn build_expr(e: &hcl::Expression) -> (res: Expr)
    ensures
        res@ == expr_of(*e),
    decreases expr_of(*e),
{
    let ghost v = expr_of(*e);
    proof {
        assert(v is Array ==> decreases_to!(v => v->Array_0));
        assert(v is Object ==> decreases_to!(v => v->Object_0));
        assert(v is Template ==> decreases_to!(v => v->Template_parts));
        assert(v is Template && v->Template_parts is Some ==> decreases_to!(v->Template_parts => v->Template_parts->0));
        assert(v is Traversal ==> decreases_to!(v => v->operators) && decreases_to!(v => v->Traversal_expr));
        assert(v is FuncCall ==> decreases_to!(v => v->args));
        assert(v is Parenthesis ==> decreases_to!(v => v->Parenthesis_0));
        assert(v is Conditional ==> decreases_to!(v => v->Conditional_cond) && decreases_to!(v => v->yes) && decreases_to!(
            v => v->no,
        ));
        assert(v is Unary ==> decreases_to!(v => v->Unary_expr));
        assert(v is Binary ==> decreases_to!(v => v->lhs) && decreases_to!(v => v->rhs));
        assert(v is For ==> decreases_to!(v => v->collection) && decreases_to!(v => v->key) && decreases_to!(
            v => v->value,
        ) && decreases_to!(v => v->For_cond));
    }
    let res = match open_any(e) {
        Shape::Null => Expr::Null,
        Shape::Bool(b) => Expr::Bool(b),
        Shape::Number(n) => Expr::Number(n),
        Shape::String(t) => Expr::String(t),
        Shape::Array(items) => Expr::Array(build_all(&items)),
        Shape::Object(items) => Expr::Object(build_items(&items)),
        Shape::Template(raw, parts) => Expr::Template {
            raw,
            heredoc: open_heredoc(e),
            parts: match parts {
                Some(items) => Some(build_parts(&items)),
                None => None,
            },
        },
        Shape::Variable(t) => Expr::Variable(t),
        Shape::Traversal(expr, operators) => Expr::Traversal {
            expr: Box::new(build_expr(&expr)),
            operators: build_operators(&operators),
        },
        Shape::FuncCall(namespace, name, args, expand_final) => Expr::FuncCall {
            namespace,
            name,
            args: build_all(&args),
            expand_final,
        },
        Shape::Parenthesis(expr) => Expr::Parenthesis(Box::new(build_expr(&expr))),
        Shape::Conditional(c, y, n) => Expr::Conditional {
            cond: Box::new(build_expr(&c)),
            yes: Box::new(build_expr(&y)),
            no: Box::new(build_expr(&n)),
        },
        Shape::Unary(operator, expr) => Expr::Unary { operator, expr: Box::new(build_expr(&expr)) },
        Shape::Binary(l, operator, r) => Expr::Binary {
            lhs: Box::new(build_expr(&l)),
            operator,
            rhs: Box::new(build_expr(&r)),
        },
        Shape::For(f) => Expr::For {
            key_var: f.key_var,
            value_var: f.value_var,
            collection: Box::new(build_expr(&f.collection)),
            key: build_opt(&f.key),
            value: Box::new(build_expr(&f.value)),
            grouping: f.grouping,
            cond: build_opt(&f.cond),
        },
        Shape::Other => Expr::Unknown,
    };
    proof {
        lemma_built(res, expr_of(*e));
    }
    res
}

/// What is left to compare are the lists of children.
proof fn lemma_built(a: Expr, b: ExprView)
    ensures
        match (a@, b) {
            (ExprView::Array(x), ExprView::Array(y)) => x =~= y ==> a@ == b,
            (ExprView::Object(x), ExprView::Object(y)) => x =~= y ==> a@ == b,
            (
                ExprView::Template { raw: r, heredoc: h, parts: Some(x) },
                ExprView::Template { raw: s, heredoc: i, parts: Some(y) },
            ) => r == s && h == i && x =~= y ==> a@ == b,
            (ExprView::Traversal { expr: e, operators: x }, ExprView::Traversal { expr: f, operators: y }) => e == f
                && x =~= y ==> a@ == b,
            (
                ExprView::FuncCall { namespace: n, name: s, args: x, expand_final: p },
                ExprView::FuncCall { namespace: m, name: t, args: y, expand_final: q },
            ) => n == m && s == t && x =~= y && p == q ==> a@ == b,
            _ => true,
        },
{
}

/// One level of an expression.
fn open_any(e: &hcl::Expression) -> (res: Shape)
    ensures
        match res {
            Shape::Template(raw, parts) => expr_of(*e) is Template && shape_view(res) == (ExprView::Template {
                raw: expr_of(*e)->raw,
                heredoc: None,
                parts: expr_of(*e)->Template_parts,
            }),
            _ => expr_of(*e) == shape_view(res),
        },
{
    let simple = open_simple(e);
    match simple {
        Shape::Other => {},
        _ => {
            return simple;
        },
    }
    let number = open_number(e);
    match number {
        Shape::Other => {},
        _ => {
            return number;
        },
    }
    let object = open_object(e);
    match object {
        Shape::Other => {},
        _ => {
            return object;
        },
    }
    let call = open_call(e);
    match call {
        Shape::Other => {},
        _ => {
            return call;
        },
    }
    let traversal = open_traversal(e);
    match traversal {
        Shape::Other => {},
        _ => {
            return traversal;
        },
    }
    let operation = open_operation(e);
    match operation {
        Shape::Other => {},
        _ => {
            return operation;
        },
    }
    let loops = open_for(e);
    match loops {
        Shape::Other => {},
        _ => {
            return loops;
        },
    }
    open_template(e)
}

spec fn structures_of(items: Seq<BodyItem>) -> Seq<StructureView> {
    items.map_values(|i: BodyItem| item_view(i))
}

/// The body, as a tree.
fn build_body(b: hcl::Body) -> (res: Contents)
    ensures
        res@ == body_of(b),
    decreases body_of(b),
{
    let ghost v = body_of(b);
    let items = open_body(b);
    let ghost views = structures_of(items@);
    assert(decreases_to!(v => v.items));
    let mut out: Vec<Structure> = Vec::new();
    for item in it: items
        invariant
            it.seq() == items@,
            v == body_of(b),
            views == structures_of(items@),
            views == v.items,
            decreases_to!(v => v.items),
            out@.len() == it.index(),
            forall|j: int| 0 <= j < out@.len() ==> (#[trigger] out@[j])@ == views[j],
    {
        let ghost k = it.index() as int;
        proof {
            assert(items@[k] == item);
            assert(views[k] == item_view(item));
            assert(decreases_to!(views => views[k]));
            assert(views[k] is Block ==> decreases_to!(views[k] => views[k]->Block_0) && decreases_to!(
                views[k]->Block_0 => views[k]->Block_0.body,
            ));
        }
        let s = match item {
            BodyItem::Attribute(key, expr) => Structure::Attribute(Attribute { key, expr: build_expr(&expr) }),
            BodyItem::Block(identifier, labels, body) => Structure::Block(
                Block { identifier, labels, body: build_body(body) },
            ),
        };
        out.push(s);
    }
    let res = Contents { items: out };
    assert(res@.items =~= v.items);
    res
}

/// Parses HCL text into a tree; the message of the parser where it is not HCL.
pub fn parse_hcl(text: &str) -> (res: Result<Contents, String>)
    ensures
        match res {
            Ok(c) => parsed_body(text@) == Ok::<ContentsView, Seq<char>>(c@),
            Err(m) => parsed_body(text@) == Err::<ContentsView, Seq<char>>(m@),
        },
{
    match parse_text(text) {
        Ok(b) => Ok(build_body(b)),
        Err(message) => Err(message),
    }
}

} // verus!
