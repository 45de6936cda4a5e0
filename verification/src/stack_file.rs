//! Parses `terragrunt.stack.hcl` files.
//!
//! A stack file declares `unit "name" { ... }` and `stack "name" { ... }` blocks that refer to a
//! shared module via `source`.

use crate::parser::{extract_path_expr, find_attr, ParseError, PathExpr};
#[allow(unused_imports)]
use crate::parser::{first_attr, path_of, PathView};
use crate::source::parse_hcl;
#[allow(unused_imports)]
use crate::source::parsed_body;
use crate::syntax::{copy_expr, Block, Contents, Expr, Structure};
#[allow(unused_imports)]
use crate::syntax::{BlockView, ContentsView, ExprView, StructureView};
use crate::text::same;
use vstd::prelude::*;

verus! {

/// Distinguishes a `unit { ... }` block from a `stack { ... }` block.
///
/// Both share the same shape (`source`, `path`, optional `values`) but only `stack` blocks are
/// followed into their source's `terragrunt.stack.hcl`.
#[derive(Debug, Clone, Copy, PartialEq, Eq, Structural)]
pub enum BlockKind {
    Unit,
    Stack,
}

/// A `unit` or `stack` block declared inside a `terragrunt.stack.hcl` file.
#[derive(Debug, PartialEq, Eq)]
pub struct StackUnit {
    /// Relative path under `.terragrunt-stack/` where this unit lives
    pub path: String,
    /// The `source` path expression (typically the shared module dir)
    pub source: PathExpr,
    /// The `values = { ... }` expression, not yet evaluated; `None` when there is none
    pub values_expr: Option<Expr>,
    /// Which kind of block produced this entry
    pub kind: BlockKind,
}

/// A parsed `terragrunt.stack.hcl` file.
#[derive(Debug, PartialEq, Eq)]
pub struct ParsedStack {
    pub stack_file: String,
    pub units: Vec<StackUnit>,
    /// The whole file (kept for the evaluation of `locals { ... }`)
    pub body: Contents,
}

/// What a declared unit is.
pub struct UnitView {
    pub path: Seq<char>,
    pub source: PathView,
    pub values_expr: Option<ExprView>,
    pub kind: BlockKind,
}

/// What a stack file holds.
pub struct StackView {
    pub stack_file: Seq<char>,
    pub units: Seq<UnitView>,
    pub body: ContentsView,
}

impl StackUnit {
    pub open spec fn view(&self) -> UnitView {
        UnitView {
            path: self.path@,
            source: self.source@,
            values_expr: match self.values_expr {
                Some(e) => Some(e@),
                None => None,
            },
            kind: self.kind,
        }
    }
}

/// The views of a list of units.
pub open spec fn unit_views(units: Seq<StackUnit>) -> Seq<UnitView> {
    units.map_values(|u: StackUnit| u.view())
}

impl ParsedStack {
    pub open spec fn view(&self) -> StackView {
        StackView { stack_file: self.stack_file@, units: unit_views(self.units@), body: self.body@ }
    }
}

/// The kind of block with the given identifier.
pub open spec fn block_kind(identifier: Seq<char>) -> Option<BlockKind> {
    if identifier == "unit"@ {
        Some(BlockKind::Unit)
    } else if identifier == "stack"@ {
        Some(BlockKind::Stack)
    } else {
        None
    }
}

/// The unit that a block declares: it takes a source, and a path that is a plain string.
pub open spec fn unit_of(b: BlockView) -> Option<UnitView> {
    let items = b.body.items;
    match (block_kind(b.identifier), first_attr(items, "source"@), first_attr(items, "path"@)) {
        (Some(kind), Some(source), Some(ExprView::String(path))) => Some(
            UnitView { path, source: path_of(source), values_expr: first_attr(items, "values"@), kind },
        ),
        _ => None,
    }
}

/// The units that the blocks of a file declare, in order.
pub open spec fn units_of(items: Seq<StructureView>) -> Seq<UnitView>
    decreases items.len(),
{
    if items.len() == 0 {
        Seq::empty()
    } else {
        let before = units_of(items.drop_last());
        match items.last() {
            StructureView::Block(b) => match unit_of(b) {
                Some(u) => before.push(u),
                None => before,
            },
            StructureView::Attribute(_) => before,
        }
    }
}

fn get_unit(block: &Block) -> (res: Option<StackUnit>)
    ensures
        match res {
            Some(u) => unit_of(block@) == Some(u@),
            None => unit_of(block@) is None,
        },
{
    let id = block.identifier.as_str();
    let kind = if same(id, "unit") {
        BlockKind::Unit
    } else if same(id, "stack") {
        BlockKind::Stack
    } else {
        return None;
    };
    let source = find_attr(&block.body, "source");
    let path = find_attr(&block.body, "path");
    let values_expr = match find_attr(&block.body, "values") {
        Some(e) => Some(copy_expr(e)),
        None => None,
    };
    match (source, path) {
        (Some(s), Some(Expr::String(p))) => Some(
            StackUnit { path: p.clone(), source: extract_path_expr(s), values_expr, kind },
        ),
        _ => None,
    }
}

/// Extracts the unit declarations from the tree of a stack file.
pub fn extract_units(file: &Contents) -> (res: Vec<StackUnit>)
    ensures
        unit_views(res@) == units_of(file@.items),
{
    let ghost views = file@.items;
    let mut out: Vec<StackUnit> = Vec::new();
    let mut i: usize = 0;
    assert(unit_views(out@) =~= units_of(views.take(0)));
    while i < file.items.len()
        invariant
            i <= file.items@.len(),
            views == file@.items,
            unit_views(out@) == units_of(views.take(i as int)),
        decreases file.items@.len() - i,
    {
        proof {
            assert(views.take(i + 1).drop_last() =~= views.take(i as int));
            assert(views.take(i + 1).last() == file.items@[i as int].view());
        }
        match &file.items[i] {
            Structure::Block(b) => match get_unit(b) {
                Some(u) => {
                    let ghost before = out@;
                    out.push(u);
                    assert(unit_views(out@) =~= unit_views(before).push(u@));
                },
                None => {},
            },
            Structure::Attribute(_) => {},
        }
        i += 1;
    }
    assert(views.take(i as int) =~= views);
    out
}

/// The stack file at `path` with the given contents.
pub open spec fn stack_of(path: Seq<char>, file: ContentsView) -> StackView {
    StackView { stack_file: path, units: units_of(file.items), body: file }
}

/// Parses the text of the `terragrunt.stack.hcl` file at `path` and extracts its unit
/// declarations.
pub fn parse_stack_file(path: &str, content: &str) -> (res: Result<ParsedStack, ParseError>)
    ensures
        match res {
            Ok(stack) => parsed_body(content@) is Ok && stack@ == stack_of(path@, parsed_body(content@)->Ok_0),
            Err(e) => parsed_body(content@) is Err && e is HclError && e->HclError_0@ == parsed_body(content@)->Err_0,
        },
{
    match parse_hcl(content) {
        Ok(body) => {
            let units = extract_units(&body);
            Ok(ParsedStack { stack_file: path.to_owned(), units, body })
        },
        Err(message) => Err(ParseError::HclError(message)),
    }
}

} // verus!
