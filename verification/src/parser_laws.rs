//! What holds of every configuration that is read.

#[allow(unused_imports)]
use crate::parser::{
    attr_names, block_deps, call_path, config_of, dependencies_deps, dependency_deps, file_block_deps, file_deps,
    file_deps_all, file_deps_entries, file_deps_operators, file_deps_parts, file_function, first_attr, first_label,
    fragment_of, fragments, include_deps, is_remote, is_remote_view, is_source_block, literal_bool, locals_deps, own_dep,
    path_of, plain_dep, template_path, terraform_deps, values_keys, ConfigView, DepView, DependencyKind, PathView,
};
#[allow(unused_imports)]
use crate::syntax::{
    AttributeView, BlockView, ContentsView, ExprView, KeyView, OperatorView, StructureView, TemplatePartView,
};
#[allow(unused_imports)]
use crate::text::{begins_with, holds_text, occurs_at};
use vstd::prelude::*;

verus! {

// ----------------------------------------------------------------------- blocks

/// The block gives `e` to the attribute `key`: it stands at place `j`, and nowhere before.
pub open spec fn gives(b: BlockView, j: int, key: Seq<char>, e: ExprView) -> bool {
    &&& 0 <= j < b.body.items.len()
    &&& b.body.items[j] == StructureView::Attribute(AttributeView { key, expr: e })
    &&& forall|k: int|
        0 <= k < j ==> !(#[trigger] b.body.items[k] is Attribute && b.body.items[k]->Attribute_0.key == key)
}

/// The block gives nothing to the attribute `key`.
pub open spec fn lacks(b: BlockView, key: Seq<char>) -> bool {
    forall|k: int|
        0 <= k < b.body.items.len() ==> !(#[trigger] b.body.items[k] is Attribute && b.body.items[k]->Attribute_0.key
            == key)
}

pub proof fn lemma_first_attr(items: Seq<StructureView>, j: int, key: Seq<char>)
    requires
        0 <= j <= items.len(),
        j < items.len() ==> items[j] is Attribute && items[j]->Attribute_0.key == key,
        forall|k: int| 0 <= k < j ==> !(#[trigger] items[k] is Attribute && items[k]->Attribute_0.key == key),
    ensures
        j < items.len() ==> first_attr(items, key) == Some(items[j]->Attribute_0.expr),
        j == items.len() ==> first_attr(items, key) is None,
    decreases items.len(),
{
    if items.len() > 0 && j > 0 {
        let rest = items.skip(1);
        assert(!(items[0] is Attribute && items[0]->Attribute_0.key == key));
        assert forall|k: int| 0 <= k < j - 1 implies !(#[trigger] rest[k] is Attribute && rest[k]->Attribute_0.key
            == key) by {
            assert(rest[k] == items[k + 1]);
        }
        lemma_first_attr(rest, j - 1, key);
    }
}

proof fn lemma_block_deps(items: Seq<StructureView>, i: int, d: DepView)
    requires
        0 <= i < items.len(),
        items[i] is Block,
        block_deps(items[i]->Block_0).contains(d),
    ensures
        file_block_deps(items).contains(d),
    decreases items.len(),
{
    let before = file_block_deps(items.drop_last());
    if i < items.len() - 1 {
        lemma_block_deps(items.drop_last(), i, d);
        lemma_in_sum(before, match items.last() {
            StructureView::Block(b) => block_deps(b),
            StructureView::Attribute(_) => Seq::empty(),
        }, d);
    } else {
        lemma_in_sum(before, block_deps(items[i]->Block_0), d);
    }
}

proof fn lemma_in_sum<T>(a: Seq<T>, b: Seq<T>, x: T)
    ensures
        (a + b).contains(x) <==> a.contains(x) || b.contains(x),
{
    if a.contains(x) {
        let i = choose|i: int| 0 <= i < a.len() && a[i] == x;
        assert((a + b)[i] == x);
    }
    if b.contains(x) {
        let i = choose|i: int| 0 <= i < b.len() && b[i] == x;
        assert((a + b)[a.len() + i] == x);
    }
    if (a + b).contains(x) {
        let i = choose|i: int| 0 <= i < (a + b).len() && (a + b)[i] == x;
        if i < a.len() {
            assert(a[i] == x);
        } else {
            assert(b[i - a.len()] == x);
        }
    }
}

proof fn lemma_identifiers()
    ensures
        "dependency"@.len() == 10,
        "dependencies"@.len() == 12,
        "include"@.len() == 7,
        "terraform"@.len() == 9,
        "locals"@.len() == 6,
{
    reveal_strlit("dependency");
    reveal_strlit("dependencies");
    reveal_strlit("include");
    reveal_strlit("terraform");
    reveal_strlit("locals");
}

/// A `dependency` block makes the project at its `config_path` a dependency, under the name of its
/// first label; `enabled` is noted where it is written out.
pub proof fn law_dependency_block(file: ContentsView, i: int, b: BlockView, j: int, e: ExprView)
    requires
        0 <= i < file.items.len(),
        file.items[i] == StructureView::Block(b),
        b.identifier == "dependency"@,
        gives(b, j, "config_path"@, e),
    ensures
        exists|d: DepView|
            #![trigger config_of(file).deps.contains(d)]
            config_of(file).deps.contains(d) && d.kind == DependencyKind::Project && d.path == path_of(e) && d.name
                == (if b.labels.len() > 0 {
                Some(b.labels[0])
            } else {
                None
            }) && (lacks(b, "enabled"@) ==> d.enabled is None) && (forall|k: int, on: bool| #[trigger]
                gives(b, k, "enabled"@, ExprView::Bool(on)) ==> d.enabled == Some(on)),
{
    lemma_first_attr(b.body.items, j, "config_path"@);
    let deps = dependency_deps(b);
    let d = deps[0];
    assert(block_deps(b).contains(d));
    lemma_block_deps(file.items, i, d);
    if lacks(b, "enabled"@) {
        lemma_first_attr(b.body.items, b.body.items.len() as int, "enabled"@);
    }
    assert forall|k: int, on: bool| #[trigger] gives(b, k, "enabled"@, ExprView::Bool(on)) implies d.enabled == Some(
        on,
    ) by {
        lemma_first_attr(b.body.items, k, "enabled"@);
    }
    assert(config_of(file).deps.contains(d));
}

/// A `dependencies` block makes every project in its `paths` a dependency.
pub proof fn law_dependencies_block(file: ContentsView, i: int, b: BlockView, j: int, paths: Seq<ExprView>, k: int)
    requires
        0 <= i < file.items.len(),
        file.items[i] == StructureView::Block(b),
        b.identifier == "dependencies"@,
        gives(b, j, "paths"@, ExprView::Array(paths)),
        0 <= k < paths.len(),
    ensures
        config_of(file).deps.contains(
            DepView { kind: DependencyKind::Project, path: path_of(paths[k]), name: None, enabled: None },
        ),
{
    lemma_identifiers();
    lemma_first_attr(b.body.items, j, "paths"@);
    let d = DepView { kind: DependencyKind::Project, path: path_of(paths[k]), name: None, enabled: None };
    assert(dependencies_deps(b)[k] == d);
    assert(block_deps(b).contains(d));
    lemma_block_deps(file.items, i, d);
}

/// An `include` block includes the configuration at its `path`, under the name of its first label.
pub proof fn law_include_block(file: ContentsView, i: int, b: BlockView, j: int, e: ExprView)
    requires
        0 <= i < file.items.len(),
        file.items[i] == StructureView::Block(b),
        b.identifier == "include"@,
        gives(b, j, "path"@, e),
    ensures
        exists|d: DepView|
            #![trigger config_of(file).deps.contains(d)]
            config_of(file).deps.contains(d) && d.kind == DependencyKind::Include && d.path == path_of(e) && d.name
                == (if b.labels.len() > 0 {
                Some(b.labels[0])
            } else {
                None
            }),
{
    lemma_identifiers();
    lemma_first_attr(b.body.items, j, "path"@);
    let d = include_deps(b)[0];
    assert(block_deps(b).contains(d));
    lemma_block_deps(file.items, i, d);
    assert(config_of(file).deps.contains(d));
}

/// A `terraform` block uses the module at its `source`, and the configuration has a module, wherever it is; a
/// module that is written as a remote address is not followed.
pub proof fn law_terraform_block(file: ContentsView, i: int, b: BlockView, j: int, e: ExprView)
    requires
        0 <= i < file.items.len(),
        file.items[i] == StructureView::Block(b),
        b.identifier == "terraform"@,
        gives(b, j, "source"@, e),
    ensures
        config_of(file).has_terraform_source,
        path_of(e) is Literal && is_remote(path_of(e)->Literal_0) ==> block_deps(b).len() == 0,
        !(path_of(e) is Literal && is_remote(path_of(e)->Literal_0)) ==> config_of(file).deps.contains(
            DepView { kind: DependencyKind::TerraformSource, path: path_of(e), name: None, enabled: None },
        ),
{
    lemma_identifiers();
    lemma_first_attr(b.body.items, j, "source"@);
    assert(is_source_block(file.items[i]));
    if !is_remote_view(path_of(e)) {
        let d = DepView { kind: DependencyKind::TerraformSource, path: path_of(e), name: None, enabled: None };
        assert(terraform_deps(b)[0] == d);
        assert(block_deps(b).contains(d));
        lemma_block_deps(file.items, i, d);
    }
}

/// Without a `terraform` block that has a source, a configuration has no module; blocks of other kinds, and
/// attributes beside the blocks, name nothing.
pub proof fn law_other_blocks_name_nothing(b: BlockView, file: ContentsView)
    ensures
        b.identifier != "dependency"@ && b.identifier != "dependencies"@ && b.identifier != "include"@ && b.identifier
            != "terraform"@ && b.identifier != "locals"@ ==> block_deps(b).len() == 0,
        (forall|i: int|
            0 <= i < file.items.len() ==> #[trigger] file.items[i] is Attribute || file.items[i]->Block_0.identifier
                != "terraform"@ || lacks(file.items[i]->Block_0, "source"@)) ==> !config_of(file).has_terraform_source,
        (forall|i: int| 0 <= i < file.items.len() ==> #[trigger] file.items[i] is Attribute) ==> config_of(
            file,
        ).deps.len() == 0,
{
    if config_of(file).has_terraform_source {
        let i = choose|i: int| 0 <= i < file.items.len() && is_source_block(#[trigger] file.items[i]);
        let x = file.items[i]->Block_0;
        if lacks(x, "source"@) {
            lemma_first_attr(x.body.items, x.body.items.len() as int, "source"@);
        }
    }
    if forall|i: int| 0 <= i < file.items.len() ==> #[trigger] file.items[i] is Attribute {
        lemma_attributes_only(file.items);
    }
}

proof fn lemma_attributes_only(items: Seq<StructureView>)
    requires
        forall|i: int| 0 <= i < items.len() ==> #[trigger] items[i] is Attribute,
    ensures
        file_block_deps(items).len() == 0,
    decreases items.len(),
{
    if items.len() > 0 {
        assert(items[items.len() - 1] is Attribute);
        lemma_attributes_only(items.drop_last());
    }
}

/// The addresses that begin as remote ones do, or hold `://`, are remote.
pub proof fn law_remote_addresses(t: Seq<char>, u: Seq<char>)
    ensures
        is_remote("git::"@ + t),
        is_remote("tfr://"@ + t),
        is_remote("github.com/"@ + t),
        is_remote("bitbucket.org/"@ + t),
        is_remote("registry.terraform.io/"@ + t),
        is_remote(u + "://"@ + t),
{
    assert(begins_with("git::"@ + t, "git::"@)) by {
        assert(("git::"@ + t).subrange(0, "git::"@.len() as int) =~= "git::"@);
    }
    assert(begins_with("tfr://"@ + t, "tfr://"@)) by {
        assert(("tfr://"@ + t).subrange(0, "tfr://"@.len() as int) =~= "tfr://"@);
    }
    assert(begins_with("github.com/"@ + t, "github.com/"@)) by {
        assert(("github.com/"@ + t).subrange(0, "github.com/"@.len() as int) =~= "github.com/"@);
    }
    assert(begins_with("bitbucket.org/"@ + t, "bitbucket.org/"@)) by {
        assert(("bitbucket.org/"@ + t).subrange(0, "bitbucket.org/"@.len() as int) =~= "bitbucket.org/"@);
    }
    assert(begins_with("registry.terraform.io/"@ + t, "registry.terraform.io/"@)) by {
        assert(("registry.terraform.io/"@ + t).subrange(0, "registry.terraform.io/"@.len() as int)
            =~= "registry.terraform.io/"@);
    }
    let whole = u + "://"@ + t;
    assert(whole.subrange(u.len() as int, (u.len() + "://"@.len()) as int) =~= "://"@);
    assert(occurs_at(whole, "://"@, u.len() as int));
}

/// A path that begins with `.` or `/`, and holds no `://`, is local.
pub proof fn law_local_paths(t: Seq<char>)
    requires
        t.len() > 0,
        t[0] == '.' || t[0] == '/',
        forall|i: int| 0 <= i && i + 3 <= t.len() ==> !(t[i] == ':' && #[trigger] t[i + 1] == '/' && t[i + 2] == '/'),
    ensures
        !is_remote(t),
{
    reveal_strlit("git::");
    reveal_strlit("tfr://");
    reveal_strlit("github.com/");
    reveal_strlit("bitbucket.org/");
    reveal_strlit("registry.terraform.io/");
    reveal_strlit("://");
    if begins_with(t, "git::"@) {
        assert(t.subrange(0, "git::"@.len() as int)[0] == t[0]);
    }
    if begins_with(t, "tfr://"@) {
        assert(t.subrange(0, "tfr://"@.len() as int)[0] == t[0]);
    }
    if begins_with(t, "github.com/"@) {
        assert(t.subrange(0, "github.com/"@.len() as int)[0] == t[0]);
    }
    if begins_with(t, "bitbucket.org/"@) {
        assert(t.subrange(0, "bitbucket.org/"@.len() as int)[0] == t[0]);
    }
    if begins_with(t, "registry.terraform.io/"@) {
        assert(t.subrange(0, "registry.terraform.io/"@.len() as int)[0] == t[0]);
    }
    if holds_text(t, "://"@) {
        let i = choose|i: int| occurs_at(t, "://"@, i);
        let piece = t.subrange(i, i + 3);
        assert(piece[0] == t[i] && piece[1] == t[i + 1] && piece[2] == t[i + 2]);
    }
}

// ------------------------------------------------------------- calls that read files

/// `x` stands directly inside `e`.
pub open spec fn is_inside(x: ExprView, e: ExprView) -> bool {
    match e {
        ExprView::FuncCall { namespace, name, args, expand_final } => args.contains(x),
        ExprView::Array(items) => items.contains(x),
        ExprView::Object(items) => exists|i: int|
            0 <= i < items.len() && ((#[trigger] items[i]).1 == x || items[i].0 == KeyView::Expression(x)),
        ExprView::Template { raw, heredoc, parts } => parts is Some && is_inside_parts(x, parts->0),
        ExprView::Traversal { expr, operators } => *expr == x || operators.contains(OperatorView::Index(x)),
        ExprView::Parenthesis(y) => *y == x,
        ExprView::Conditional { cond, yes, no } => *cond == x || *yes == x || *no == x,
        ExprView::Unary { operator, expr } => *expr == x,
        ExprView::Binary { lhs, operator, rhs } => *lhs == x || *rhs == x,
        ExprView::For { key_var, value_var, collection, key, value, grouping, cond } => *collection == x || *value == x
            || (key is Some && *key->0 == x) || (cond is Some && *cond->0 == x),
        _ => false,
    }
}

/// `x` stands in one of the parts of a template, or in the condition of one of its directives.
pub open spec fn is_inside_parts(x: ExprView, parts: Seq<TemplatePartView>) -> bool {
    exists|i: int|
        0 <= i < parts.len() && match #[trigger] parts[i] {
            TemplatePartView::Literal(_) => false,
            TemplatePartView::Interpolation(y) => y == x,
            TemplatePartView::Directive { expr, parts: branch, other } => expr == x,
        }
}

proof fn lemma_inside_all(items: Seq<ExprView>, x: ExprView, d: DepView)
    requires
        items.contains(x),
        file_deps(x).contains(d),
    ensures
        file_deps_all(items).contains(d),
    decreases items.len(),
{
    let i = choose|i: int| 0 <= i < items.len() && items[i] == x;
    let before = file_deps_all(items.drop_last());
    lemma_in_sum(before, file_deps(items.last()), d);
    if i < items.len() - 1 {
        assert(items.drop_last()[i] == x);
        lemma_inside_all(items.drop_last(), x, d);
    }
}

proof fn lemma_inside_entries(items: Seq<(KeyView, ExprView)>, i: int, x: ExprView, d: DepView)
    requires
        0 <= i < items.len(),
        items[i].1 == x || items[i].0 == KeyView::Expression(x),
        file_deps(x).contains(d),
    ensures
        file_deps_entries(items).contains(d),
    decreases items.len(),
{
    let before = file_deps_entries(items.drop_last());
    let key = match items.last().0 {
        KeyView::Expression(k) => file_deps(k),
        KeyView::Identifier(_) => Seq::empty(),
    };
    lemma_in_sum(before, key, d);
    lemma_in_sum(before + key, file_deps(items.last().1), d);
    if i < items.len() - 1 {
        lemma_inside_entries(items.drop_last(), i, x, d);
    }
}

proof fn lemma_inside_operators(operators: Seq<OperatorView>, x: ExprView, d: DepView)
    requires
        operators.contains(OperatorView::Index(x)),
        file_deps(x).contains(d),
    ensures
        file_deps_operators(operators).contains(d),
    decreases operators.len(),
{
    let i = choose|i: int| 0 <= i < operators.len() && operators[i] == OperatorView::Index(x);
    let before = file_deps_operators(operators.drop_last());
    lemma_in_sum(before, match operators.last() {
        OperatorView::Index(y) => file_deps(y),
        _ => Seq::empty(),
    }, d);
    if i < operators.len() - 1 {
        assert(operators.drop_last()[i] == OperatorView::Index(x));
        lemma_inside_operators(operators.drop_last(), x, d);
    }
}

spec fn part_deps(p: TemplatePartView) -> Seq<DepView> {
    match p {
        TemplatePartView::Literal(_) => Seq::empty(),
        TemplatePartView::Interpolation(x) => file_deps(x),
        TemplatePartView::Directive { expr, parts: branch, other } => file_deps(expr) + file_deps_parts(branch)
            + file_deps_parts(other),
    }
}

proof fn lemma_inside_parts(parts: Seq<TemplatePartView>, i: int, d: DepView)
    requires
        0 <= i < parts.len(),
        part_deps(parts[i]).contains(d),
    ensures
        file_deps_parts(parts).contains(d),
    decreases parts.len(),
{
    let before = file_deps_parts(parts.drop_last());
    lemma_in_sum(before, part_deps(parts.last()), d);
    if i < parts.len() - 1 {
        lemma_inside_parts(parts.drop_last(), i, d);
    }
}

/// A file that is read in some part of an expression is read in the expression, whatever the part is; so every
/// call is found, however deep it stands.
pub proof fn law_calls_are_found_inside(e: ExprView, x: ExprView, d: DepView)
    requires
        is_inside(x, e),
        file_deps(x).contains(d),
    ensures
        file_deps(e).contains(d),
{
    match e {
        ExprView::FuncCall { namespace, name, args, expand_final } => {
            lemma_inside_all(args, x, d);
            lemma_in_sum(own_dep(name, args), file_deps_all(args), d);
        },
        ExprView::Array(items) => {
            lemma_inside_all(items, x, d);
        },
        ExprView::Object(items) => {
            let i = choose|i: int|
                0 <= i < items.len() && ((#[trigger] items[i]).1 == x || items[i].0 == KeyView::Expression(x));
            lemma_inside_entries(items, i, x, d);
        },
        ExprView::Template { raw, heredoc, parts } => {
            let items = parts->0;
            let i = choose|i: int|
                0 <= i < items.len() && match #[trigger] items[i] {
                    TemplatePartView::Literal(_) => false,
                    TemplatePartView::Interpolation(y) => y == x,
                    TemplatePartView::Directive { expr, parts: branch, other } => expr == x,
                };
            match items[i] {
                TemplatePartView::Directive { expr, parts: branch, other } => {
                    lemma_in_sum(file_deps(expr), file_deps_parts(branch), d);
                    lemma_in_sum(file_deps(expr) + file_deps_parts(branch), file_deps_parts(other), d);
                },
                _ => {},
            }
            assert(part_deps(items[i]).contains(d));
            lemma_inside_parts(items, i, d);
        },
        ExprView::Traversal { expr, operators } => {
            lemma_in_sum(file_deps(*expr), file_deps_operators(operators), d);
            if *expr != x {
                lemma_inside_operators(operators, x, d);
            }
        },
        ExprView::Conditional { cond, yes, no } => {
            lemma_in_sum(file_deps(*cond), file_deps(*yes), d);
            lemma_in_sum(file_deps(*cond) + file_deps(*yes), file_deps(*no), d);
        },
        ExprView::Binary { lhs, operator, rhs } => {
            lemma_in_sum(file_deps(*lhs), file_deps(*rhs), d);
        },
        ExprView::For { key_var, value_var, collection, key, value, grouping, cond } => {
            let a = file_deps(*collection);
            let b = match key {
                Some(k) => file_deps(*k),
                None => Seq::empty(),
            };
            let c = file_deps(*value);
            let f = match cond {
                Some(c) => file_deps(*c),
                None => Seq::empty(),
            };
            lemma_in_sum(a, b, d);
            lemma_in_sum(a + b, c, d);
            lemma_in_sum(a + b + c, f, d);
        },
        _ => {},
    }
}

/// What stands in a branch of a directive is found in the template.
pub proof fn law_calls_are_found_in_branches(
    raw: Seq<char>,
    parts: Seq<TemplatePartView>,
    i: int,
    d: DepView,
)
    requires
        0 <= i < parts.len(),
        parts[i] is Directive,
        ({
            let branch = ExprView::Template { raw, heredoc: None, parts: Some(parts[i]->parts) };
            let other = ExprView::Template { raw, heredoc: None, parts: Some(parts[i]->other) };
            file_deps(branch).contains(d) || file_deps(other).contains(d)
        }),
    ensures
        file_deps(ExprView::Template { raw, heredoc: None, parts: Some(parts) }).contains(d),
{
    let expr = file_deps(parts[i]->Directive_expr);
    let branch = file_deps_parts(parts[i]->parts);
    let other = file_deps_parts(parts[i]->other);
    lemma_in_sum(expr, branch, d);
    lemma_in_sum(expr + branch, other, d);
    assert(part_deps(parts[i]).contains(d));
    lemma_inside_parts(parts, i, d);
}

/// `read_terragrunt_config` reads a configuration, `file`, `sops_decrypt_file` and `read_tfvars_file` read a
/// file, each the one at its first argument; other calls read nothing themselves, nor does anything that is
/// no call and has nothing inside.
pub proof fn law_calls_that_read(namespace: Seq<Seq<char>>, name: Seq<char>, args: Seq<ExprView>, expand_final: bool)
    ensures
        ({
            let call = ExprView::FuncCall { namespace, name, args, expand_final };
            let configuration = DepView {
                kind: DependencyKind::ReadConfig,
                path: path_of(args[0]),
                name: None,
                enabled: None,
            };
            let file = DepView { kind: DependencyKind::FileRead, path: path_of(args[0]), name: None, enabled: None };
            &&& name == "read_terragrunt_config"@ && args.len() > 0 ==> file_deps(call).contains(configuration)
            &&& name == "file"@ && args.len() > 0 ==> file_deps(call).contains(file)
            &&& name == "sops_decrypt_file"@ && args.len() > 0 ==> file_deps(call).contains(file)
            &&& name == "read_tfvars_file"@ && args.len() > 0 ==> file_deps(call).contains(file)
            &&& args.len() == 0 ==> file_deps(call).len() == 0
            &&& name != "read_terragrunt_config"@ && name != "file"@ && name != "sops_decrypt_file"@ && name
                != "read_tfvars_file"@ ==> file_deps(call) == file_deps(ExprView::Array(args))
        }),
        file_deps(ExprView::Null).len() == 0,
        file_deps(ExprView::String(name)).len() == 0,
        file_deps(ExprView::Variable(name)).len() == 0,
{
    reveal_strlit("read_terragrunt_config");
    reveal_strlit("file");
    reveal_strlit("sops_decrypt_file");
    reveal_strlit("read_tfvars_file");
    assert("read_terragrunt_config"@.len() == 22);
    assert("file"@.len() == 4);
    assert("sops_decrypt_file"@.len() == 17);
    assert("read_tfvars_file"@.len() == 16);
    let call = ExprView::FuncCall { namespace, name, args, expand_final };
    assert(file_deps(call) == own_dep(name, args) + file_deps_all(args));
    assert(file_deps(ExprView::Array(args)) == file_deps_all(args));
    if args.len() > 0 {
        match file_function(name) {
            Some(kind) => {
                let d = DepView { kind, path: path_of(args[0]), name: None, enabled: None };
                assert(own_dep(name, args)[0] == d);
                assert(own_dep(name, args).contains(d));
                lemma_in_sum(own_dep(name, args), file_deps_all(args), d);
            },
            None => {
                assert(own_dep(name, args) + file_deps_all(args) =~= file_deps_all(args));
            },
        }
    } else {
        assert(file_deps_all(args).len() == 0);
        assert(own_dep(name, args) + file_deps_all(args) =~= file_deps_all(args));
    }
}

/// What an attribute of a `locals` block reads, the configuration reads.
pub proof fn law_locals_block(file: ContentsView, i: int, b: BlockView, j: int, d: DepView)
    requires
        0 <= i < file.items.len(),
        file.items[i] == StructureView::Block(b),
        b.identifier == "locals"@,
        0 <= j < b.body.items.len(),
        b.body.items[j] is Attribute,
        file_deps(b.body.items[j]->Attribute_0.expr).contains(d),
    ensures
        config_of(file).deps.contains(d),
{
    lemma_identifiers();
    lemma_locals(b.body.items, j, d);
    lemma_block_deps(file.items, i, d);
}

proof fn lemma_locals(items: Seq<StructureView>, j: int, d: DepView)
    requires
        0 <= j < items.len(),
        items[j] is Attribute,
        file_deps(items[j]->Attribute_0.expr).contains(d),
    ensures
        locals_deps(items).contains(d),
    decreases items.len(),
{
    lemma_in_sum(locals_deps(items.drop_last()), match items.last() {
        StructureView::Attribute(a) => file_deps(a.expr),
        StructureView::Block(_) => Seq::empty(),
    }, d);
    if j < items.len() - 1 {
        lemma_locals(items.drop_last(), j, d);
    }
}

// ------------------------------------------------------------------- expressions

/// A string is a written path; each function that makes paths is known by its name, and any other call is not
/// resolved.
pub proof fn law_path_calls(namespace: Seq<Seq<char>>, name: Seq<char>, args: Seq<ExprView>, expand_final: bool)
    ensures
        path_of(ExprView::String(name)) == PathView::Literal(name),
        ({
            let p = path_of(ExprView::FuncCall { namespace, name, args, expand_final });
            &&& name == "find_in_parent_folders"@ && args.len() > 0 && args[0] is String ==> p
                == PathView::FindInParentFolders(Some(args[0]->String_0))
            &&& name == "find_in_parent_folders"@ && args.len() == 0 ==> p == PathView::FindInParentFolders(None)
            &&& name == "get_repo_root"@ ==> p == PathView::GetRepoRoot
            &&& name == "get_terragrunt_dir"@ ==> p == PathView::GetTerragruntDir
            &&& name == "get_parent_terragrunt_dir"@ ==> p == PathView::GetParentTerragruntDir
            &&& name == "path_relative_to_include"@ ==> p == PathView::PathRelativeToInclude
            &&& name == "path_relative_from_include"@ ==> p == PathView::PathRelativeFromInclude
            &&& name == "dirname"@ && args.len() > 0 ==> p == PathView::Dirname(Box::new(path_of(args[0])))
            &&& name == "dirname"@ && args.len() == 0 ==> p is Unresolvable
            &&& name == "format"@ && args.len() > 0 && args[0] is String ==> p is Format && p->fmt == args[0]->String_0
                && p->args.len() == args.len() - 1 && forall|i: int|
                0 <= i < args.len() - 1 ==> #[trigger] p->args[i] == path_of(args[i + 1])
            &&& name != "find_in_parent_folders"@ && name != "get_repo_root"@ && name != "get_terragrunt_dir"@ && name
                != "get_parent_terragrunt_dir"@ && name != "path_relative_to_include"@ && name
                != "path_relative_from_include"@ && name != "dirname"@ && name != "format"@ ==> p
                == PathView::Unresolvable { func: name }
        }),
{
    reveal_strlit("find_in_parent_folders");
    reveal_strlit("get_repo_root");
    reveal_strlit("get_terragrunt_dir");
    reveal_strlit("get_parent_terragrunt_dir");
    reveal_strlit("path_relative_to_include");
    reveal_strlit("path_relative_from_include");
    reveal_strlit("dirname");
    reveal_strlit("format");
    assert("find_in_parent_folders"@.len() == 22);
    assert("get_repo_root"@.len() == 13);
    assert("get_terragrunt_dir"@.len() == 18);
    assert("get_parent_terragrunt_dir"@.len() == 25);
    assert("path_relative_to_include"@.len() == 24);
    assert("path_relative_from_include"@.len() == 26);
    assert("dirname"@.len() == 7);
    assert("format"@.len() == 6);
    let p = path_of(ExprView::FuncCall { namespace, name, args, expand_final });
    assert(p == call_path(name, args));
    if name == "format"@ && args.len() > 0 && args[0] is String {
        assert(p is Format);
        assert(p->args.len() == args.len() - 1);
        assert forall|i: int| 0 <= i < args.len() - 1 implies #[trigger] p->args[i] == path_of(args[i + 1]) by {}
    }
}

/// Both branches of a condition are kept, and which is which; `values.a.b` refers to the values by the names
/// `a`, `b`.
pub proof fn law_conditions_and_values(cond: ExprView, yes: ExprView, no: ExprView, a: Seq<char>, b: Seq<char>)
    ensures
        path_of(ExprView::Conditional { cond: Box::new(cond), yes: Box::new(yes), no: Box::new(no) })
            == (PathView::Conditional { true_branch: Box::new(path_of(yes)), false_branch: Box::new(path_of(no)) }),
        path_of(
            ExprView::Traversal {
                expr: Box::new(ExprView::Variable("values"@)),
                operators: seq![OperatorView::GetAttr(a), OperatorView::GetAttr(b)],
            },
        ) == PathView::ValuesRef(seq![a, b]),
        path_of(
            ExprView::Traversal {
                expr: Box::new(ExprView::Variable("values"@)),
                operators: seq![OperatorView::GetAttr(a)],
            },
        ) == PathView::ValuesRef(seq![a]),
        path_of(ExprView::Variable(a)) == PathView::HclExpr(Box::new(ExprView::Variable(a))),
{
    let one = seq![OperatorView::GetAttr(a)];
    let two = seq![OperatorView::GetAttr(a), OperatorView::GetAttr(b)];
    let none = Seq::<OperatorView>::empty();
    assert(attr_names(none) == Some(Seq::<Seq<char>>::empty()));
    assert(one.drop_last() =~= none);
    assert(two.drop_last() =~= one);
    assert(Seq::<Seq<char>>::empty().push(a) =~= seq![a]);
    assert(attr_names(one) == Some(seq![a]));
    assert(seq![a].push(b) =~= seq![a, b]);
    assert(attr_names(two) == Some(seq![a, b]));
}

/// A template is the text between its calls and the calls, in their order: what stands behind the other parts
/// comes behind them.
pub proof fn law_template_parts_in_order(raw: Seq<char>, parts: Seq<TemplatePartView>, text: Seq<char>, x: ExprView)
    requires
        text.len() > 0,
        x is FuncCall,
        parts.len() > 0,
        parts[0] is Literal,
        parts[0]->Literal_0.len() > 0,
    ensures
        path_of(ExprView::Template { raw, heredoc: None, parts: Some(seq![TemplatePartView::Literal(text)]) })
            == PathView::Literal(text),
        path_of(ExprView::Template { raw, heredoc: None, parts: Some(seq![TemplatePartView::Interpolation(x)]) })
            == path_of(x),
        path_of(
            ExprView::Template {
                raw,
                heredoc: None,
                parts: Some(seq![TemplatePartView::Interpolation(x), TemplatePartView::Literal(text)]),
            },
        ) == PathView::Interpolation(seq![path_of(x), PathView::Literal(text)]),
        ({
            let before = fragments(parts);
            let more = path_of(
                ExprView::Template { raw, heredoc: None, parts: Some(parts.push(TemplatePartView::Literal(text))) },
            );
            &&& more == PathView::Interpolation(before.push(PathView::Literal(text)))
        }),
        ({
            let before = fragments(parts);
            let more = path_of(
                ExprView::Template { raw, heredoc: None, parts: Some(parts.push(TemplatePartView::Interpolation(x))) },
            );
            &&& more == PathView::Interpolation(before.push(path_of(x)))
        }),
{
    let none = Seq::<TemplatePartView>::empty();
    let lit = TemplatePartView::Literal(text);
    let call = TemplatePartView::Interpolation(x);
    assert(fragments(none) =~= Seq::<PathView>::empty());
    assert(seq![lit].drop_last() =~= none);
    assert(seq![call].drop_last() =~= none);
    assert(fragments(seq![lit]) =~= seq![PathView::Literal(text)]);
    assert(fragment_of(x) == path_of(x));
    assert(fragments(seq![call]) =~= seq![path_of(x)]);
    let both = seq![call, lit];
    assert(both.drop_last() =~= seq![call]);
    assert(fragments(both) =~= seq![path_of(x), PathView::Literal(text)]);
    assert(parts.push(lit).drop_last() =~= parts);
    assert(parts.push(call).drop_last() =~= parts);
    lemma_fragments_kept(parts);
    assert(fragments(parts.push(lit)) == fragments(parts).push(PathView::Literal(text)));
    assert(fragments(parts.push(call)) == fragments(parts).push(path_of(x)));
}

proof fn lemma_fragments_kept(parts: Seq<TemplatePartView>)
    requires
        parts.len() > 0,
        parts[0] is Literal,
        parts[0]->Literal_0.len() > 0,
    ensures
        fragments(parts).len() > 0,
    decreases parts.len(),
{
    if parts.len() > 1 {
        lemma_fragments_kept(parts.drop_last());
    } else {
        assert(parts.last() == parts[0]);
    }
}

/// Anything in a template that is neither a string, a call nor a template is an expression.
pub proof fn law_expressions_in_templates(raw: Seq<char>, x: ExprView, text: Seq<char>)
    requires
        text.len() > 0,
        !(x is String),
        !(x is FuncCall),
        !(x is Template),
    ensures
        path_of(
            ExprView::Template {
                raw,
                heredoc: None,
                parts: Some(seq![TemplatePartView::Interpolation(x), TemplatePartView::Literal(text)]),
            },
        ) == PathView::Interpolation(seq![PathView::HclExpr(Box::new(x)), PathView::Literal(text)]),
        path_of(ExprView::Template { raw, heredoc: None, parts: Some(seq![TemplatePartView::Interpolation(x)]) })
            == PathView::HclExpr(Box::new(x)),
        path_of(ExprView::Template { raw, heredoc: None, parts: None }) is Unresolvable,
        path_of(ExprView::Template { raw, heredoc: None, parts: Some(Seq::empty()) }) is Unresolvable,
{
    let none = Seq::<TemplatePartView>::empty();
    let call = TemplatePartView::Interpolation(x);
    let lit = TemplatePartView::Literal(text);
    assert(fragments(none) =~= Seq::<PathView>::empty());
    assert(seq![call].drop_last() =~= none);
    assert(fragment_of(x) == PathView::HclExpr(Box::new(x)));
    assert(fragments(seq![call]) =~= seq![PathView::HclExpr(Box::new(x))]);
    let both = seq![call, lit];
    assert(both.drop_last() =~= seq![call]);
    assert(fragments(both) =~= seq![PathView::HclExpr(Box::new(x)), PathView::Literal(text)]);
}

} // verus!
