//! Extracts terragrunt constructs from HCL.

use crate::source::parse_hcl;
#[allow(unused_imports)]
use crate::source::parsed_body;
use crate::syntax::{copy_expr, Block, Contents, Expr, ObjectKey, Structure, TemplatePart, TraversalOperator};
#[allow(unused_imports)]
use crate::syntax::{
    expr_views, lemma_directive_view, part_views, BlockView, ContentsView, ExprView, KeyView, OperatorView,
    StructureView, TemplatePartView,
};
use crate::text::{clone_opt, clone_texts, concat, contains_text, same, starts_with, to_chars};
#[allow(unused_imports)]
use crate::text::{begins_with, holds_text, opt_text, texts};
use vstd::prelude::*;

verus! {

/// Why a configuration could not be had.
#[derive(Debug, PartialEq, Eq)]
pub enum ParseError {
    /// The text is not HCL
    HclError(String),
    /// The file could not be read
    IoError(String),
}

impl ParseError {
    /// The error in words.
    pub open spec fn message(self) -> Seq<char> {
        match self {
            ParseError::HclError(t) => "Failed to parse HCL: "@ + t@,
            ParseError::IoError(t) => "IO error: "@ + t@,
        }
    }

    /// The error in words.
    pub fn to_text(&self) -> (res: String)
        ensures
            res@ == self.message(),
    {
        match self {
            ParseError::HclError(t) => concat("Failed to parse HCL: ", t.as_str()),
            ParseError::IoError(t) => concat("IO error: ", t.as_str()),
        }
    }
}

// ------------------------------------------------------------ path expressions

/// A path expression extracted from HCL: a literal string, or something that needs resolution.
#[derive(Debug, PartialEq, Eq)]
pub enum PathExpr {
    /// Literal string path
    Literal(String),
    /// find_in_parent_folders() or find_in_parent_folders("filename")
    FindInParentFolders(Option<String>),
    /// get_repo_root()
    GetRepoRoot,
    /// get_terragrunt_dir()
    GetTerragruntDir,
    /// get_parent_terragrunt_dir()
    GetParentTerragruntDir,
    /// path_relative_to_include()
    PathRelativeToInclude,
    /// path_relative_from_include()
    PathRelativeFromInclude,
    /// dirname(path) - the parent directory
    Dirname(Box<PathExpr>),
    /// format(fmt_string, args...) - sprintf-like string formatting
    Format { fmt: String, args: Vec<PathExpr> },
    /// String interpolation: "${get_repo_root()}/modules/vpc"
    Interpolation(Vec<PathExpr>),
    /// Function we can't evaluate
    Unresolvable { func: String },
    /// cond ? a : b - either branch
    Conditional { true_branch: Box<PathExpr>, false_branch: Box<PathExpr> },
    /// values.a.b - a value bound by a stack file
    ValuesRef(Vec<String>),
    /// An expression that has to be evaluated
    HclExpr(Box<Expr>),
}

/// What a path expression is.
pub enum PathView {
    Literal(Seq<char>),
    FindInParentFolders(Option<Seq<char>>),
    GetRepoRoot,
    GetTerragruntDir,
    GetParentTerragruntDir,
    PathRelativeToInclude,
    PathRelativeFromInclude,
    Dirname(Box<PathView>),
    Format { fmt: Seq<char>, args: Seq<PathView> },
    Interpolation(Seq<PathView>),
    Unresolvable { func: Seq<char> },
    Conditional { true_branch: Box<PathView>, false_branch: Box<PathView> },
    ValuesRef(Seq<Seq<char>>),
    HclExpr(Box<ExprView>),
}

impl PathExpr {
    pub open spec fn view(&self) -> PathView
        decreases self,
    {
        match self {
            PathExpr::Literal(t) => PathView::Literal(t@),
            PathExpr::FindInParentFolders(t) => PathView::FindInParentFolders(opt_text(*t)),
            PathExpr::GetRepoRoot => PathView::GetRepoRoot,
            PathExpr::GetTerragruntDir => PathView::GetTerragruntDir,
            PathExpr::GetParentTerragruntDir => PathView::GetParentTerragruntDir,
            PathExpr::PathRelativeToInclude => PathView::PathRelativeToInclude,
            PathExpr::PathRelativeFromInclude => PathView::PathRelativeFromInclude,
            PathExpr::Dirname(p) => PathView::Dirname(Box::new(p.view())),
            PathExpr::Format { fmt, args } => PathView::Format {
                fmt: fmt@,
                args: Seq::new(
                    args@.len(),
                    |i: int|
                        if 0 <= i < args@.len() {
                            args@[i].view()
                        } else {
                            PathView::GetRepoRoot
                        },
                ),
            },
            PathExpr::Interpolation(parts) => PathView::Interpolation(
                Seq::new(
                    parts@.len(),
                    |i: int|
                        if 0 <= i < parts@.len() {
                            parts@[i].view()
                        } else {
                            PathView::GetRepoRoot
                        },
                ),
            ),
            PathExpr::Unresolvable { func } => PathView::Unresolvable { func: func@ },
            PathExpr::Conditional { true_branch, false_branch } => PathView::Conditional {
                true_branch: Box::new(true_branch.view()),
                false_branch: Box::new(false_branch.view()),
            },
            PathExpr::ValuesRef(keys) => PathView::ValuesRef(texts(keys@)),
            PathExpr::HclExpr(e) => PathView::HclExpr(Box::new(e.view())),
        }
    }
}

/// The views of a list of path expressions.
pub open spec fn path_views(items: Seq<PathExpr>) -> Seq<PathView> {
    items.map_values(|p: PathExpr| p.view())
}

pub proof fn lemma_format_view(fmt: String, args: Vec<PathExpr>)
    ensures
        (PathExpr::Format { fmt, args })@ == (PathView::Format { fmt: fmt@, args: path_views(args@) }),
{
    assert((PathExpr::Format { fmt, args })@->args =~= path_views(args@));
}

pub proof fn lemma_interpolation_view(parts: Vec<PathExpr>)
    ensures
        PathExpr::Interpolation(parts)@ == PathView::Interpolation(path_views(parts@)),
{
    assert(PathExpr::Interpolation(parts)@->Interpolation_0 =~= path_views(parts@));
}

// --------------------------------------------------- from HCL to path expressions

/// The names along `values.a.b`, where the operators are all attribute accesses.
pub open spec fn attr_names(operators: Seq<OperatorView>) -> Option<Seq<Seq<char>>>
    decreases operators.len(),
{
    if operators.len() == 0 {
        Some(Seq::empty())
    } else {
        match (attr_names(operators.drop_last()), operators.last()) {
            (Some(names), OperatorView::GetAttr(t)) => Some(names.push(t)),
            _ => None,
        }
    }
}

/// The keys of a reference to a bound value.
pub open spec fn values_keys(e: ExprView) -> Option<Seq<Seq<char>>> {
    match e {
        ExprView::Traversal { expr, operators } => if *expr == ExprView::Variable("values"@) && operators.len() > 0 {
            attr_names(operators)
        } else {
            None
        },
        _ => None,
    }
}

/// The path expression of a function call.
pub open spec fn call_path(name: Seq<char>, args: Seq<ExprView>) -> PathView
    decreases args, 2int,
{
    if name == "find_in_parent_folders"@ {
        PathView::FindInParentFolders(
            if args.len() > 0 && args[0] is String {
                Some(args[0]->String_0)
            } else {
                None
            },
        )
    } else if name == "get_repo_root"@ {
        PathView::GetRepoRoot
    } else if name == "get_terragrunt_dir"@ {
        PathView::GetTerragruntDir
    } else if name == "get_parent_terragrunt_dir"@ {
        PathView::GetParentTerragruntDir
    } else if name == "path_relative_to_include"@ {
        PathView::PathRelativeToInclude
    } else if name == "path_relative_from_include"@ {
        PathView::PathRelativeFromInclude
    } else if name == "dirname"@ {
        if args.len() > 0 {
            PathView::Dirname(Box::new(path_of(args[0])))
        } else {
            PathView::Unresolvable { func: "dirname with no arguments"@ }
        }
    } else if name == "format"@ {
        if args.len() > 0 {
            if args[0] is String {
                PathView::Format {
                    fmt: args[0]->String_0,
                    args: Seq::new(
                        (args.len() - 1) as nat,
                        |i: int|
                            if 0 <= i < args.len() - 1 {
                                path_of(args[i + 1])
                            } else {
                                PathView::GetRepoRoot
                            },
                    ),
                }
            } else {
                PathView::Unresolvable { func: "format with non-literal format string"@ }
            }
        } else {
            PathView::Unresolvable { func: "format with no arguments"@ }
        }
    } else {
        PathView::Unresolvable { func: name }
    }
}

/// The path expression that an HCL expression stands for.
pub open spec fn path_of(e: ExprView) -> PathView
    decreases e, 0int,
{
    match e {
        ExprView::String(t) => PathView::Literal(t),
        ExprView::FuncCall { namespace, name, args, expand_final } => call_path(name, args),
        ExprView::Template { raw, heredoc, parts } => match parts {
            Some(items) => template_path(fragments(items)),
            None => PathView::Unresolvable { func: "template parse error: "@ + raw },
        },
        ExprView::Conditional { cond, yes, no } => PathView::Conditional {
            true_branch: Box::new(path_of(*yes)),
            false_branch: Box::new(path_of(*no)),
        },
        _ => match values_keys(e) {
            Some(keys) => PathView::ValuesRef(keys),
            None => PathView::HclExpr(Box::new(e)),
        },
    }
}

/// The path expression that an interpolated expression stands for: what is neither a string, nor
/// a call, nor a template is evaluated to a piece of text.
pub open spec fn fragment_of(e: ExprView) -> PathView
    decreases e, 1int,
{
    if e is String || e is FuncCall || e is Template {
        path_of(e)
    } else {
        PathView::HclExpr(Box::new(e))
    }
}

/// The path expressions of the parts of a template; empty literals are left out.
pub open spec fn fragments(parts: Seq<TemplatePartView>) -> Seq<PathView>
    decreases parts, 0int,
{
    if parts.len() == 0 {
        Seq::empty()
    } else {
        proof {
            assert(decreases_to!(parts => parts.drop_last()));
            assert(decreases_to!(parts => parts[parts.len() - 1]));
            assert(parts.last() is Interpolation ==> decreases_to!(parts.last() => parts.last()->Interpolation_0));
        }
        let before = fragments(parts.drop_last());
        match parts.last() {
            TemplatePartView::Literal(t) => if t.len() == 0 {
                before
            } else {
                before.push(PathView::Literal(t))
            },
            TemplatePartView::Interpolation(e) => before.push(fragment_of(e)),
            TemplatePartView::Directive { .. } => before.push(PathView::Unresolvable { func: "template directive"@ }),
        }
    }
}

/// The path expression of a template with the given parts.
pub open spec fn template_path(parts: Seq<PathView>) -> PathView {
    if parts.len() == 0 {
        PathView::Unresolvable { func: "empty template"@ }
    } else if parts.len() == 1 {
        parts[0]
    } else {
        PathView::Interpolation(parts)
    }
}

fn get_attr_names(operators: &Vec<TraversalOperator>) -> (res: Option<Vec<String>>)
    ensures
        ({
            let views = Seq::new(operators@.len(), |i: int| operators@[i].view());
            match res {
                Some(names) => attr_names(views) == Some(texts(names@)),
                None => attr_names(views) is None,
            }
        }),
{
    let ghost views = Seq::new(operators@.len(), |i: int| operators@[i].view());
    let mut out: Vec<String> = Vec::new();
    let mut i: usize = 0;
    assert(texts(out@) =~= Seq::<Seq<char>>::empty());
    while i < operators.len()
        invariant
            i <= operators@.len(),
            views == Seq::new(operators@.len(), |i: int| operators@[i].view()),
            attr_names(views.take(i as int)) == Some(texts(out@)),
        decreases operators@.len() - i,
    {
        proof {
            assert(views.take(i + 1).drop_last() =~= views.take(i as int));
            assert(views.take(i + 1).last() == operators@[i as int].view());
        }
        match &operators[i] {
            TraversalOperator::GetAttr(t) => {
                let ghost before = out@;
                out.push(t.clone());
                assert(texts(out@) =~= texts(before).push(t@));
            },
            _ => {
                proof {
                    assert(attr_names(views.take(i + 1)) is None);
                    lemma_attr_names_prefix(views, i + 1);
                }
                return None;
            },
        }
        i += 1;
    }
    assert(views.take(i as int) =~= views);
    Some(out)
}

proof fn lemma_attr_names_prefix(operators: Seq<OperatorView>, k: int)
    requires
        0 <= k <= operators.len(),
        attr_names(operators.take(k)) is None,
    ensures
        attr_names(operators) is None,
    decreases operators.len(),
{
    if k == operators.len() {
        assert(operators.take(k) =~= operators);
    } else {
        assert(operators.drop_last().take(k) =~= operators.take(k));
        lemma_attr_names_prefix(operators.drop_last(), k);
    }
}

fn get_values_keys(e: &Expr) -> (res: Option<Vec<String>>)
    ensures
        match res {
            Some(keys) => values_keys(e@) == Some(texts(keys@)),
            None => values_keys(e@) is None,
        },
{
    match e {
        Expr::Traversal { expr, operators } => {
            proof {
                assert(e@->operators =~= Seq::new(operators@.len(), |i: int| operators@[i].view()));
            }
            let is_values = match &**expr {
                Expr::Variable(t) => same(t.as_str(), "values"),
                _ => false,
            };
            proof {
                assert(is_values == (expr@ == ExprView::Variable("values"@)));
                assert(*(e@->Traversal_expr) == expr@);
                assert(e@->operators.len() == operators@.len());
            }
            if is_values && operators.len() > 0 {
                get_attr_names(operators)
            } else {
                None
            }
        },
        _ => None,
    }
}

fn first_string(args: &Vec<Expr>) -> (res: Option<String>)
    ensures
        opt_text(res) == (if args@.len() > 0 && args@[0]@ is String {
            Some(args@[0]@->String_0)
        } else {
            None
        }),
{
    if args.len() == 0 {
        return None;
    }
    match &args[0] {
        Expr::String(t) => Some(t.clone()),
        _ => None,
    }
}

fn unresolvable(func: &str) -> (res: PathExpr)
    ensures
        res@ == (PathView::Unresolvable { func: func@ }),
{
    PathExpr::Unresolvable { func: func.to_owned() }
}

/// The path expression of a function call.
fn extract_call(name: &String, args: &Vec<Expr>) -> (res: PathExpr)
    ensures
        res@ == call_path(name@, expr_views(args@)),
    decreases args, 2int,
{
    let n = name.as_str();
    let ghost views = expr_views(args@);
    assert(args@.len() > 0 ==> views[0] == args@[0]@);
    if same(n, "find_in_parent_folders") {
        PathExpr::FindInParentFolders(first_string(args))
    } else if same(n, "get_repo_root") {
        PathExpr::GetRepoRoot
    } else if same(n, "get_terragrunt_dir") {
        PathExpr::GetTerragruntDir
    } else if same(n, "get_parent_terragrunt_dir") {
        PathExpr::GetParentTerragruntDir
    } else if same(n, "path_relative_to_include") {
        PathExpr::PathRelativeToInclude
    } else if same(n, "path_relative_from_include") {
        PathExpr::PathRelativeFromInclude
    } else if same(n, "dirname") {
        if args.len() > 0 {
            assert(decreases_to!(args => args@[0]));
            PathExpr::Dirname(Box::new(extract_path_expr(&args[0])))
        } else {
            unresolvable("dirname with no arguments")
        }
    } else if same(n, "format") {
        if args.len() == 0 {
            return unresolvable("format with no arguments");
        }
        match first_string(args) {
            Some(fmt) => {
                let mut rest: Vec<PathExpr> = Vec::new();
                let mut i: usize = 1;
                while i < args.len()
                    invariant
                        1 <= i <= args@.len(),
                        rest@.len() == i - 1,
                        forall|j: int| 0 <= j < i - 1 ==> (#[trigger] rest@[j])@ == path_of(args@[j + 1]@),
                    decreases args@.len() - i,
                {
                    assert(decreases_to!(args => args@[i as int]));
                    let p = extract_path_expr(&args[i]);
                    rest.push(p);
                    i += 1;
                }
                proof {
                    lemma_format_view(fmt, rest);
                    assert(path_views(rest@) =~= call_path(name@, views)->args);
                }
                PathExpr::Format { fmt, args: rest }
            },
            None => unresolvable("format with non-literal format string"),
        }
    } else {
        PathExpr::Unresolvable { func: name.clone() }
    }
}

/// Extracts a path expression from an HCL expression.
pub fn extract_path_expr(expr: &Expr) -> (res: PathExpr)
    ensures
        res@ == path_of(expr@),
    decreases expr, 0int,
{
    match expr {
        Expr::String(t) => PathExpr::Literal(t.clone()),
        Expr::FuncCall { namespace, name, args, expand_final } => {
            assert(expr@->args =~= expr_views(args@));
            extract_call(name, args)
        },
        Expr::Template { raw, heredoc, parts } => match parts {
            Some(items) => {
                assert(expr@->Template_parts->0 =~= Seq::new(items@.len(), |i: int| items@[i].view()));
                extract_template_expr(items)
            },
            None => {
                let func = concat("template parse error: ", raw.as_str());
                PathExpr::Unresolvable { func }
            },
        },
        Expr::Conditional { cond, yes, no } => PathExpr::Conditional {
            true_branch: Box::new(extract_path_expr(yes)),
            false_branch: Box::new(extract_path_expr(no)),
        },
        _ => match get_values_keys(expr) {
            Some(keys) => PathExpr::ValuesRef(keys),
            None => PathExpr::HclExpr(Box::new(copy_expr(expr))),
        },
    }
}

fn extract_fragment(expr: &Expr) -> (res: PathExpr)
    ensures
        res@ == fragment_of(expr@),
    decreases expr, 1int,
{
    match expr {
        Expr::String(_) => extract_path_expr(expr),
        Expr::FuncCall { .. } => extract_path_expr(expr),
        Expr::Template { .. } => extract_path_expr(expr),
        _ => PathExpr::HclExpr(Box::new(copy_expr(expr))),
    }
}

/// Extracts a path expression from the parts of a template: literal strings and interpolated
/// expressions. A template with one part is that part.
fn extract_template_expr(items: &Vec<TemplatePart>) -> (res: PathExpr)
    ensures
        res@ == template_path(fragments(Seq::new(items@.len(), |i: int| items@[i].view()))),
    decreases items, 0int,
{
    let ghost views = Seq::new(items@.len(), |i: int| items@[i].view());
    let mut parts: Vec<PathExpr> = Vec::new();
    let mut i: usize = 0;
    assert(path_views(parts@) =~= fragments(views.take(0)));
    while i < items.len()
        invariant
            i <= items@.len(),
            views == Seq::new(items@.len(), |i: int| items@[i].view()),
            path_views(parts@) == fragments(views.take(i as int)),
        decreases items@.len() - i,
    {
        let ghost before = parts@;
        proof {
            assert(views.take(i + 1).drop_last() =~= views.take(i as int));
            assert(views.take(i + 1).last() == items@[i as int].view());
            assert(decreases_to!(items => items@[i as int]));
        }
        match &items[i] {
            TemplatePart::Literal(t) => {
                if to_chars(t.as_str()).len() > 0 {
                    let p = PathExpr::Literal(t.clone());
                    parts.push(p);
                    assert(path_views(parts@) =~= path_views(before).push(p@));
                }
            },
            TemplatePart::Interpolation(e) => {
                assert(decreases_to!(items@[i as int] => items@[i as int]->Interpolation_0));
                let p = extract_fragment(e);
                parts.push(p);
                assert(path_views(parts@) =~= path_views(before).push(p@));
            },
            TemplatePart::Directive { .. } => {
                let p = unresolvable("template directive");
                parts.push(p);
                assert(path_views(parts@) =~= path_views(before).push(p@));
            },
        }
        i += 1;
    }
    assert(views.take(i as int) =~= views);
    let ghost all = path_views(parts@);
    if parts.len() == 0 {
        unresolvable("empty template")
    } else if parts.len() == 1 {
        assert(all[0] == parts@[0]@);
        match parts.pop() {
            Some(p) => p,
            None => unresolvable("empty template"),
        }
    } else {
        proof {
            lemma_interpolation_view(parts);
        }
        PathExpr::Interpolation(parts)
    }
}

// ---------------------------------------------------------------- dependencies

/// What kind of dependency is this.
#[derive(Debug, Clone, Copy, PartialEq, Eq, Structural)]
pub enum DependencyKind {
    /// dependency/dependencies block: another project
    Project,
    /// include block: recurse into file
    Include,
    /// terraform.source (local): watch directory
    TerraformSource,
    /// read_terragrunt_config(): recurse into file
    ReadConfig,
    /// file(), sops_decrypt_file(), read_tfvars_file(): watch file
    FileRead,
}

/// A dependency extracted from HCL.
#[derive(Debug, PartialEq, Eq)]
pub struct ExtractedDep {
    /// What kind of dependency
    pub kind: DependencyKind,
    /// The path expression (may need resolution)
    pub path: PathExpr,
    /// Optional name (e.g., dependency block label)
    pub name: Option<String>,
    /// Whether this dependency is enabled (None = not specified or expression)
    pub enabled: Option<bool>,
}

/// What an extracted dependency is.
pub struct DepView {
    pub kind: DependencyKind,
    pub path: PathView,
    pub name: Option<Seq<char>>,
    pub enabled: Option<bool>,
}

impl ExtractedDep {
    pub open spec fn view(&self) -> DepView {
        DepView { kind: self.kind, path: self.path@, name: opt_text(self.name), enabled: self.enabled }
    }
}

/// The views of a list of dependencies.
pub open spec fn dep_views(deps: Seq<ExtractedDep>) -> Seq<DepView> {
    deps.map_values(|d: ExtractedDep| d.view())
}

proof fn lemma_dep_push(deps: Seq<ExtractedDep>, d: ExtractedDep)
    ensures
        dep_views(deps.push(d)) == dep_views(deps).push(d@),
{
    assert(dep_views(deps.push(d)) =~= dep_views(deps).push(d@));
}

/// A parsed terragrunt configuration.
#[derive(Debug, PartialEq, Eq)]
pub struct TerragruntConfig {
    /// All extracted dependencies (projects, includes, watch files, etc.)
    pub deps: Vec<ExtractedDep>,
    /// Whether a terraform block has a source, local or remote
    pub has_terraform_source: bool,
}

/// What a configuration holds.
pub struct ConfigView {
    pub deps: Seq<DepView>,
    pub has_terraform_source: bool,
}

impl TerragruntConfig {
    pub open spec fn view(&self) -> ConfigView {
        ConfigView { deps: dep_views(self.deps@), has_terraform_source: self.has_terraform_source }
    }
}

impl Default for TerragruntConfig {
    fn default() -> (res: Self)
        ensures
            res@ == (ConfigView { deps: Seq::empty(), has_terraform_source: false }),
    {
        let res = TerragruntConfig { deps: Vec::new(), has_terraform_source: false };
        assert(res@.deps =~= Seq::empty());
        res
    }
}

// -------------------------------------------------------------- remote sources

/// The text is the address of a remote source.
pub open spec fn is_remote(t: Seq<char>) -> bool {
    begins_with(t, "git::"@) || begins_with(t, "tfr://"@) || begins_with(t, "github.com/"@) || begins_with(
        t,
        "bitbucket.org/"@,
    ) || begins_with(t, "registry.terraform.io/"@) || holds_text(t, "://"@)
}

/// Whether a text is the address of a remote source: one that begins like a known registry or
/// host, or any URL.
pub fn is_remote_path(path: &str) -> (res: bool)
    ensures
        res == is_remote(path@),
{
    starts_with(path, "git::") || starts_with(path, "tfr://") || starts_with(path, "github.com/") || starts_with(
        path,
        "bitbucket.org/",
    ) || starts_with(path, "registry.terraform.io/") || contains_text(path, "://")
}

/// The path expression is the address of a remote source.
pub open spec fn is_remote_view(p: PathView) -> bool {
    match p {
        PathView::Literal(t) => is_remote(t),
        _ => false,
    }
}

/// Checks if a path expression represents a remote source that should be ignored. Function calls
/// and interpolations are assumed to be local.
pub fn is_remote_source(path: &PathExpr) -> (res: bool)
    ensures
        res == is_remote_view(path@),
{
    match path {
        PathExpr::Literal(t) => is_remote_path(t.as_str()),
        _ => false,
    }
}

// ----------------------------------------------------------------------- blocks

/// The expression of the first attribute with the given key.
pub open spec fn first_attr(items: Seq<StructureView>, key: Seq<char>) -> Option<ExprView>
    decreases items.len(),
{
    if items.len() == 0 {
        None
    } else {
        match items[0] {
            StructureView::Attribute(a) => if a.key == key {
                Some(a.expr)
            } else {
                first_attr(items.skip(1), key)
            },
            StructureView::Block(_) => first_attr(items.skip(1), key),
        }
    }
}

/// The expression of the first attribute with the given key.
pub fn find_attr<'a>(body: &'a Contents, key: &str) -> (res: Option<&'a Expr>)
    ensures
        match res {
            Some(e) => first_attr(body@.items, key@) == Some(e@),
            None => first_attr(body@.items, key@) is None,
        },
{
    let ghost views = body@.items;
    let mut i: usize = 0;
    assert(views.skip(0) =~= views);
    while i < body.items.len()
        invariant
            i <= body.items@.len(),
            views == body@.items,
            first_attr(views, key@) == first_attr(views.skip(i as int), key@),
        decreases body.items@.len() - i,
    {
        proof {
            assert(views.skip(i as int)[0] == body.items@[i as int].view());
            assert(views.skip(i as int).skip(1) =~= views.skip(i + 1));
        }
        match &body.items[i] {
            Structure::Attribute(a) => {
                if same(a.key.as_str(), key) {
                    return Some(&a.expr);
                }
            },
            Structure::Block(_) => {},
        }
        i += 1;
    }
    None
}

/// The first label of a block.
pub open spec fn first_label(b: BlockView) -> Option<Seq<char>> {
    if b.labels.len() > 0 {
        Some(b.labels[0])
    } else {
        None
    }
}

/// The first label of a block.
pub fn get_label(block: &Block) -> (res: Option<String>)
    ensures
        opt_text(res) == first_label(block@),
{
    if block.labels.len() > 0 {
        assert(block@.labels[0] == block.labels@[0]@);
        Some(block.labels[0].clone())
    } else {
        None
    }
}

/// The boolean that an expression is.
pub open spec fn literal_bool(e: Option<ExprView>) -> Option<bool> {
    match e {
        Some(ExprView::Bool(b)) => Some(b),
        _ => None,
    }
}

/// What a `dependency` block stands for.
pub open spec fn dependency_deps(b: BlockView) -> Seq<DepView> {
    match first_attr(b.body.items, "config_path"@) {
        Some(e) => seq![
            DepView {
                kind: DependencyKind::Project,
                path: path_of(e),
                name: first_label(b),
                enabled: literal_bool(first_attr(b.body.items, "enabled"@)),
            },
        ],
        None => Seq::empty(),
    }
}

/// A dependency without a name.
pub open spec fn plain_dep(kind: DependencyKind, path: PathView) -> DepView {
    DepView { kind, path, name: None, enabled: None }
}

/// What a `dependencies` block stands for: one project for each of its paths.
pub open spec fn dependencies_deps(b: BlockView) -> Seq<DepView> {
    match first_attr(b.body.items, "paths"@) {
        Some(ExprView::Array(items)) => items.map_values(
            |e: ExprView| plain_dep(DependencyKind::Project, path_of(e)),
        ),
        _ => Seq::empty(),
    }
}

/// What an `include` block stands for.
pub open spec fn include_deps(b: BlockView) -> Seq<DepView> {
    match first_attr(b.body.items, "path"@) {
        Some(e) => seq![
            DepView { kind: DependencyKind::Include, path: path_of(e), name: first_label(b), enabled: None },
        ],
        None => Seq::empty(),
    }
}

/// What a `terraform` block stands for: its source, where it is local.
pub open spec fn terraform_deps(b: BlockView) -> Seq<DepView> {
    match first_attr(b.body.items, "source"@) {
        Some(e) => if is_remote_view(path_of(e)) {
            Seq::empty()
        } else {
            seq![plain_dep(DependencyKind::TerraformSource, path_of(e))]
        },
        None => Seq::empty(),
    }
}

/// Extracts a dependency block.
pub fn extract_dependency_block(block: &Block) -> (res: Option<ExtractedDep>)
    ensures
        match res {
            Some(d) => dependency_deps(block@) == seq![d@],
            None => dependency_deps(block@).len() == 0,
        },
{
    match find_attr(&block.body, "config_path") {
        Some(e) => {
            let enabled = match find_attr(&block.body, "enabled") {
                Some(Expr::Bool(b)) => Some(*b),
                _ => None,
            };
            Some(
                ExtractedDep {
                    kind: DependencyKind::Project,
                    path: extract_path_expr(e),
                    name: get_label(block),
                    enabled,
                },
            )
        },
        None => None,
    }
}

/// Extracts dependencies from a plural `dependencies` block: one entry per path in the array.
pub fn extract_dependencies_block(block: &Block) -> (res: Vec<ExtractedDep>)
    ensures
        dep_views(res@) == dependencies_deps(block@),
{
    let mut out: Vec<ExtractedDep> = Vec::new();
    assert(dep_views(out@) =~= Seq::empty());
    match find_attr(&block.body, "paths") {
        Some(e) => match e {
            Expr::Array(items) => {
                let ghost views = e@->Array_0;
                let ghost all = dependencies_deps(block@);
                let mut i: usize = 0;
                while i < items.len()
                    invariant
                        i <= items@.len(),
                        views.len() == items@.len(),
                        forall|j: int| 0 <= j < views.len() ==> views[j] == (#[trigger] items@[j])@,
                        all == views.map_values(|e: ExprView| plain_dep(DependencyKind::Project, path_of(e))),
                        dep_views(out@) == all.take(i as int),
                    decreases items@.len() - i,
                {
                    let d = ExtractedDep {
                        kind: DependencyKind::Project,
                        path: extract_path_expr(&items[i]),
                        name: None,
                        enabled: None,
                    };
                    proof {
                        lemma_dep_push(out@, d);
                        assert(all.take(i + 1) =~= all.take(i as int).push(all[i as int]));
                    }
                    out.push(d);
                    i += 1;
                }
                assert(all.take(i as int) =~= all);
            },
            _ => {},
        },
        None => {},
    }
    out
}

/// Extracts an include block.
pub fn extract_include_block(block: &Block) -> (res: Option<ExtractedDep>)
    ensures
        match res {
            Some(d) => include_deps(block@) == seq![d@],
            None => include_deps(block@).len() == 0,
        },
{
    match find_attr(&block.body, "path") {
        Some(e) => Some(
            ExtractedDep {
                kind: DependencyKind::Include,
                path: extract_path_expr(e),
                name: get_label(block),
                enabled: None,
            },
        ),
        None => None,
    }
}

/// Extracts the source of a terraform block. Only local sources are extracted: remote sources
/// (git::, tfr://, github.com/) are ignored.
pub fn extract_terraform_block(block: &Block) -> (res: Option<ExtractedDep>)
    ensures
        match res {
            Some(d) => terraform_deps(block@) == seq![d@],
            None => terraform_deps(block@).len() == 0,
        },
{
    match find_attr(&block.body, "source") {
        Some(e) => {
            let path = extract_path_expr(e);
            if is_remote_source(&path) {
                None
            } else {
                Some(ExtractedDep { kind: DependencyKind::TerraformSource, path, name: None, enabled: None })
            }
        },
        None => None,
    }
}

// --------------------------------------------------------------- file functions

/// The kind of dependency that a call of a function that reads a file makes.
pub open spec fn file_function(name: Seq<char>) -> Option<DependencyKind> {
    if name == "read_terragrunt_config"@ {
        Some(DependencyKind::ReadConfig)
    } else if name == "file"@ || name == "sops_decrypt_file"@ || name == "read_tfvars_file"@ {
        Some(DependencyKind::FileRead)
    } else {
        None
    }
}

/// The dependency that a call itself makes: on its first argument.
pub open spec fn own_dep(name: Seq<char>, args: Seq<ExprView>) -> Seq<DepView> {
    match file_function(name) {
        Some(kind) => if args.len() > 0 {
            seq![plain_dep(kind, path_of(args[0]))]
        } else {
            Seq::empty()
        },
        None => Seq::empty(),
    }
}

/// The dependencies that the calls in an expression make, from the outside in.
pub open spec fn file_deps(e: ExprView) -> Seq<DepView>
    decreases e, 0int,
{
    match e {
        ExprView::FuncCall { namespace, name, args, expand_final } => own_dep(name, args) + file_deps_all(args),
        ExprView::Array(items) => file_deps_all(items),
        ExprView::Object(items) => file_deps_entries(items),
        ExprView::Template { raw, heredoc, parts } => match parts {
            Some(items) => file_deps_parts(items),
            None => Seq::empty(),
        },
        ExprView::Traversal { expr, operators } => file_deps(*expr) + file_deps_operators(operators),
        ExprView::Parenthesis(x) => file_deps(*x),
        ExprView::Conditional { cond, yes, no } => file_deps(*cond) + file_deps(*yes) + file_deps(*no),
        ExprView::Unary { operator, expr } => file_deps(*expr),
        ExprView::Binary { lhs, operator, rhs } => file_deps(*lhs) + file_deps(*rhs),
        ExprView::For { key_var, value_var, collection, key, value, grouping, cond } => file_deps(*collection) + (match key {
            Some(k) => file_deps(*k),
            None => Seq::empty(),
        }) + file_deps(*value) + (match cond {
            Some(c) => file_deps(*c),
            None => Seq::empty(),
        }),
        _ => Seq::empty(),
    }
}

pub open spec fn file_deps_all(items: Seq<ExprView>) -> Seq<DepView>
    decreases items, 0int,
{
    if items.len() == 0 {
        Seq::empty()
    } else {
        proof {
            assert(decreases_to!(items => items.drop_last()));
            assert(decreases_to!(items => items[items.len() - 1]));
        }
        file_deps_all(items.drop_last()) + file_deps(items.last())
    }
}

/// The dependencies of the entries of an object: those of each key, where it is an expression, and
/// then those of its value.
pub open spec fn file_deps_entries(items: Seq<(KeyView, ExprView)>) -> Seq<DepView>
    decreases items, 0int,
{
    if items.len() == 0 {
        Seq::empty()
    } else {
        proof {
            assert(decreases_to!(items => items.drop_last()));
            assert(decreases_to!(items => items[items.len() - 1]));
            assert(decreases_to!(items.last() => items.last().0));
            assert(items.last().0 is Expression ==> decreases_to!(items.last().0 => items.last().0->Expression_0));
            assert(decreases_to!(items.last() => items.last().1));
        }
        file_deps_entries(items.drop_last()) + (match items.last().0 {
            KeyView::Expression(k) => file_deps(k),
            KeyView::Identifier(_) => Seq::empty(),
        }) + file_deps(items.last().1)
    }
}

/// The dependencies of the expressions that are in the parts of a template: those that are
/// interpolated, and those of a directive, from the outside in.
pub open spec fn file_deps_parts(parts: Seq<TemplatePartView>) -> Seq<DepView>
    decreases parts, 0int,
{
    if parts.len() == 0 {
        Seq::empty()
    } else {
        proof {
            assert(decreases_to!(parts => parts.drop_last()));
            assert(decreases_to!(parts => parts[parts.len() - 1]));
            assert(parts.last() is Interpolation ==> decreases_to!(parts.last() => parts.last()->Interpolation_0));
            assert(parts.last() is Directive ==> decreases_to!(parts.last() => parts.last()->Directive_expr)
                && decreases_to!(parts.last() => parts.last()->parts) && decreases_to!(
                parts.last() => parts.last()->other,
            ));
        }
        file_deps_parts(parts.drop_last()) + (match parts.last() {
            TemplatePartView::Literal(_) => Seq::empty(),
            TemplatePartView::Interpolation(x) => file_deps(x),
            TemplatePartView::Directive { expr, parts: branch, other } => file_deps(expr) + file_deps_parts(branch)
                + file_deps_parts(other),
        })
    }
}

/// The dependencies of the expressions that a traversal is indexed by.
pub open spec fn file_deps_operators(operators: Seq<OperatorView>) -> Seq<DepView>
    decreases operators, 0int,
{
    if operators.len() == 0 {
        Seq::empty()
    } else {
        proof {
            assert(decreases_to!(operators => operators.drop_last()));
            assert(decreases_to!(operators => operators[operators.len() - 1]));
            assert(operators.last() is Index ==> decreases_to!(operators.last() => operators.last()->Index_0));
        }
        file_deps_operators(operators.drop_last()) + (match operators.last() {
            OperatorView::Index(x) => file_deps(x),
            _ => Seq::empty(),
        })
    }
}

fn put_own_dep(name: &String, args: &Vec<Expr>, deps: &mut Vec<ExtractedDep>)
    ensures
        dep_views(final(deps)@) == dep_views(old(deps)@) + own_dep(name@, expr_views(args@)),
{
    let n = name.as_str();
    let kind = if same(n, "read_terragrunt_config") {
        Some(DependencyKind::ReadConfig)
    } else if same(n, "file") || same(n, "sops_decrypt_file") || same(n, "read_tfvars_file") {
        Some(DependencyKind::FileRead)
    } else {
        None
    };
    match kind {
        Some(k) => {
            if args.len() > 0 {
                let d = ExtractedDep { kind: k, path: extract_path_expr(&args[0]), name: None, enabled: None };
                proof {
                    lemma_dep_push(deps@, d);
                    assert(expr_views(args@)[0] == args@[0]@);
                    assert(dep_views(deps@).push(d@) =~= dep_views(deps@) + seq![d@]);
                }
                deps.push(d);
                return;
            }
        },
        None => {},
    }
    assert(dep_views(deps@) =~= dep_views(deps@) + own_dep(name@, expr_views(args@)));
}

/// Walks an HCL expression and extracts file-related function calls, nested calls included (as in
/// `yamldecode(file(...))` or `read_terragrunt_config(...).locals`), wherever they stand.
pub fn extract_file_functions_from_expr(expr: &Expr, deps: &mut Vec<ExtractedDep>)
    ensures
        dep_views(final(deps)@) == dep_views(old(deps)@) + file_deps(expr@),
    decreases expr, 0int,
{
    let ghost start = dep_views(deps@);
    match expr {
        Expr::FuncCall { namespace, name, args, expand_final } => {
            assert(expr@->args =~= expr_views(args@));
            put_own_dep(name, args, deps);
            extract_from_all(args, deps);
        },
        Expr::Array(items) => {
            assert(expr@->Array_0 =~= expr_views(items@));
            extract_from_all(items, deps);
        },
        Expr::Object(items) => {
            assert(expr@->Object_0 =~= key_value_views(items@));
            extract_from_entries(items, deps);
        },
        Expr::Template { raw, heredoc, parts } => match parts {
            Some(items) => {
                assert(expr@->Template_parts->0 =~= part_views(items@));
                extract_from_parts(items, deps);
            },
            None => {},
        },
        Expr::Traversal { expr: x, operators } => {
            assert(expr@->operators =~= Seq::new(operators@.len(), |i: int| operators@[i].view()));
            extract_file_functions_from_expr(x, deps);
            extract_from_operators(operators, deps);
        },
        Expr::Parenthesis(x) => extract_file_functions_from_expr(x, deps),
        Expr::Conditional { cond, yes, no } => {
            extract_file_functions_from_expr(cond, deps);
            extract_file_functions_from_expr(yes, deps);
            extract_file_functions_from_expr(no, deps);
        },
        Expr::Unary { operator, expr: x } => extract_file_functions_from_expr(x, deps),
        Expr::Binary { lhs, operator, rhs } => {
            extract_file_functions_from_expr(lhs, deps);
            extract_file_functions_from_expr(rhs, deps);
        },
        Expr::For { key_var, value_var, collection, key, value, grouping, cond } => {
            extract_file_functions_from_expr(collection, deps);
            match key {
                Some(k) => extract_file_functions_from_expr(k, deps),
                None => {},
            }
            extract_file_functions_from_expr(value, deps);
            match cond {
                Some(c) => extract_file_functions_from_expr(c, deps),
                None => {},
            }
        },
        _ => {},
    }
    assert(dep_views(deps@) =~= start + file_deps(expr@));
}

fn extract_from_all(items: &Vec<Expr>, deps: &mut Vec<ExtractedDep>)
    ensures
        dep_views(final(deps)@) == dep_views(old(deps)@) + file_deps_all(expr_views(items@)),
    decreases items, 0int,
{
    let ghost start = dep_views(deps@);
    let ghost views = expr_views(items@);
    let mut i: usize = 0;
    assert(dep_views(deps@) =~= start + file_deps_all(views.take(0)));
    while i < items.len()
        invariant
            i <= items@.len(),
            views == expr_views(items@),
            dep_views(deps@) == start + file_deps_all(views.take(i as int)),
        decreases items@.len() - i,
    {
        proof {
            assert(views.take(i + 1).drop_last() =~= views.take(i as int));
            assert(views.take(i + 1).last() == items@[i as int]@);
            assert(decreases_to!(items => items@[i as int]));
        }
        let ghost before = dep_views(deps@);
        extract_file_functions_from_expr(&items[i], deps);
        assert(before + file_deps(views[i as int]) =~= start + (file_deps_all(views.take(i as int)) + file_deps(
            views[i as int],
        )));
        i += 1;
    }
    assert(views.take(i as int) =~= views);
}

/// The views of the entries of an object.
spec fn key_value_views(items: Seq<(ObjectKey, Expr)>) -> Seq<(KeyView, ExprView)> {
    items.map_values(|p: (ObjectKey, Expr)| (p.0.view(), p.1@))
}

fn extract_from_entries(items: &Vec<(ObjectKey, Expr)>, deps: &mut Vec<ExtractedDep>)
    ensures
        dep_views(final(deps)@) == dep_views(old(deps)@) + file_deps_entries(key_value_views(items@)),
    decreases items, 0int,
{
    let ghost start = dep_views(deps@);
    let ghost views = key_value_views(items@);
    let mut i: usize = 0;
    assert(dep_views(deps@) =~= start + file_deps_entries(views.take(0)));
    while i < items.len()
        invariant
            i <= items@.len(),
            views == key_value_views(items@),
            dep_views(deps@) == start + file_deps_entries(views.take(i as int)),
        decreases items@.len() - i,
    {
        let ghost now = views.take(i + 1);
        proof {
            assert(now.drop_last() =~= views.take(i as int));
            assert(now.last() == (items@[i as int].0.view(), items@[i as int].1@));
            assert(decreases_to!(items => items@[i as int]));
            assert(decreases_to!(items@[i as int] => items@[i as int].0));
            assert(decreases_to!(items@[i as int] => items@[i as int].1));
        }
        match &items[i].0 {
            ObjectKey::Expression(k) => {
                assert(decreases_to!(items@[i as int].0 => items@[i as int].0->Expression_0));
                extract_file_functions_from_expr(k, deps);
            },
            ObjectKey::Identifier(_) => {},
        }
        extract_file_functions_from_expr(&items[i].1, deps);
        assert(dep_views(deps@) =~= start + file_deps_entries(now));
        i += 1;
    }
    assert(views.take(i as int) =~= views);
}

fn extract_from_parts(items: &Vec<TemplatePart>, deps: &mut Vec<ExtractedDep>)
    ensures
        dep_views(final(deps)@) == dep_views(old(deps)@) + file_deps_parts(part_views(items@)),
    decreases items, 0int,
{
    let ghost start = dep_views(deps@);
    let ghost views = part_views(items@);
    let mut i: usize = 0;
    assert(dep_views(deps@) =~= start + file_deps_parts(views.take(0)));
    while i < items.len()
        invariant
            i <= items@.len(),
            views == part_views(items@),
            dep_views(deps@) == start + file_deps_parts(views.take(i as int)),
        decreases items@.len() - i,
    {
        let ghost now = views.take(i + 1);
        proof {
            assert(now.drop_last() =~= views.take(i as int));
            assert(now.last() == items@[i as int].view());
            assert(decreases_to!(items => items@[i as int]));
        }
        match &items[i] {
            TemplatePart::Interpolation(x) => {
                assert(decreases_to!(items@[i as int] => items@[i as int]->Interpolation_0));
                extract_file_functions_from_expr(x, deps);
            },
            TemplatePart::Directive { expr, parts, other } => {
                proof {
                    lemma_directive_view(*expr, *parts, *other);
                    assert(decreases_to!(items@[i as int] => items@[i as int]->Directive_expr));
                    assert(decreases_to!(items@[i as int] => items@[i as int]->parts));
                    assert(decreases_to!(items@[i as int] => items@[i as int]->other));
                }
                extract_file_functions_from_expr(expr, deps);
                extract_from_parts(parts, deps);
                extract_from_parts(other, deps);
            },
            TemplatePart::Literal(_) => {},
        }
        assert(dep_views(deps@) =~= start + file_deps_parts(now));
        i += 1;
    }
    assert(views.take(i as int) =~= views);
}

fn extract_from_operators(items: &Vec<TraversalOperator>, deps: &mut Vec<ExtractedDep>)
    ensures
        dep_views(final(deps)@) == dep_views(old(deps)@) + file_deps_operators(
            Seq::new(items@.len(), |i: int| items@[i].view()),
        ),
    decreases items, 0int,
{
    let ghost start = dep_views(deps@);
    let ghost views = Seq::new(items@.len(), |i: int| items@[i].view());
    let mut i: usize = 0;
    assert(dep_views(deps@) =~= start + file_deps_operators(views.take(0)));
    while i < items.len()
        invariant
            i <= items@.len(),
            views == Seq::new(items@.len(), |i: int| items@[i].view()),
            dep_views(deps@) == start + file_deps_operators(views.take(i as int)),
        decreases items@.len() - i,
    {
        let ghost now = views.take(i + 1);
        proof {
            assert(now.drop_last() =~= views.take(i as int));
            assert(now.last() == items@[i as int].view());
            assert(decreases_to!(items => items@[i as int]));
        }
        match &items[i] {
            TraversalOperator::Index(x) => {
                assert(decreases_to!(items@[i as int] => items@[i as int]->Index_0));
                extract_file_functions_from_expr(x, deps);
            },
            _ => {},
        }
        assert(dep_views(deps@) =~= start + file_deps_operators(now));
        i += 1;
    }
    assert(views.take(i as int) =~= views);
}

/// What the attributes of a `locals` block stand for.
pub open spec fn locals_deps(items: Seq<StructureView>) -> Seq<DepView>
    decreases items.len(),
{
    if items.len() == 0 {
        Seq::empty()
    } else {
        locals_deps(items.drop_last()) + (match items.last() {
            StructureView::Attribute(a) => file_deps(a.expr),
            StructureView::Block(_) => Seq::empty(),
        })
    }
}

/// Extracts file dependencies from a locals block.
pub fn extract_locals_block(block: &Block) -> (res: Vec<ExtractedDep>)
    ensures
        dep_views(res@) == locals_deps(block@.body.items),
{
    let ghost views = block@.body.items;
    let items = &block.body.items;
    let mut out: Vec<ExtractedDep> = Vec::new();
    let mut i: usize = 0;
    assert(dep_views(out@) =~= locals_deps(views.take(0)));
    while i < items.len()
        invariant
            i <= items@.len(),
            items == block.body.items,
            views == block@.body.items,
            dep_views(out@) == locals_deps(views.take(i as int)),
        decreases items@.len() - i,
    {
        proof {
            assert(views.take(i + 1).drop_last() =~= views.take(i as int));
            assert(views.take(i + 1).last() == items@[i as int].view());
        }
        match &items[i] {
            Structure::Attribute(a) => extract_file_functions_from_expr(&a.expr, &mut out),
            Structure::Block(_) => {
                assert(dep_views(out@) =~= locals_deps(views.take(i as int)) + Seq::empty());
            },
        }
        i += 1;
    }
    assert(views.take(i as int) =~= views);
    out
}

// ------------------------------------------------------------------- whole files

/// What a block stands for.
pub open spec fn block_deps(b: BlockView) -> Seq<DepView> {
    if b.identifier == "dependency"@ {
        dependency_deps(b)
    } else if b.identifier == "dependencies"@ {
        dependencies_deps(b)
    } else if b.identifier == "include"@ {
        include_deps(b)
    } else if b.identifier == "terraform"@ {
        terraform_deps(b)
    } else if b.identifier == "locals"@ {
        locals_deps(b.body.items)
    } else {
        Seq::empty()
    }
}

/// What the blocks of a file stand for, in order.
pub open spec fn file_block_deps(items: Seq<StructureView>) -> Seq<DepView>
    decreases items.len(),
{
    if items.len() == 0 {
        Seq::empty()
    } else {
        file_block_deps(items.drop_last()) + (match items.last() {
            StructureView::Block(b) => block_deps(b),
            StructureView::Attribute(_) => Seq::empty(),
        })
    }
}

/// A terraform block with a source.
pub open spec fn is_source_block(s: StructureView) -> bool {
    match s {
        StructureView::Block(b) => b.identifier == "terraform"@ && first_attr(b.body.items, "source"@) is Some,
        StructureView::Attribute(_) => false,
    }
}

/// The configuration that a file stands for.
pub open spec fn config_of(file: ContentsView) -> ConfigView {
    ConfigView {
        deps: file_block_deps(file.items),
        has_terraform_source: exists|i: int| 0 <= i < file.items.len() && is_source_block(#[trigger] file.items[i]),
    }
}

fn put_block(block: &Block, deps: &mut Vec<ExtractedDep>)
    ensures
        dep_views(final(deps)@) == dep_views(old(deps)@) + block_deps(block@),
{
    let id = block.identifier.as_str();
    if same(id, "dependency") {
        put_optional(extract_dependency_block(block), deps);
    } else if same(id, "dependencies") {
        let mut more = extract_dependencies_block(block);
        append_deps(deps, &mut more);
    } else if same(id, "include") {
        put_optional(extract_include_block(block), deps);
    } else if same(id, "terraform") {
        put_optional(extract_terraform_block(block), deps);
    } else if same(id, "locals") {
        let mut more = extract_locals_block(block);
        append_deps(deps, &mut more);
    } else {
        assert(dep_views(deps@) =~= dep_views(deps@) + Seq::empty());
    }
    proof {
        let b = block@;
        if dependency_deps(b).len() == 0 {
            assert(dependency_deps(b) =~= Seq::empty());
        }
        if include_deps(b).len() == 0 {
            assert(include_deps(b) =~= Seq::empty());
        }
        if terraform_deps(b).len() == 0 {
            assert(terraform_deps(b) =~= Seq::empty());
        }
    }
}

fn put_optional(d: Option<ExtractedDep>, deps: &mut Vec<ExtractedDep>)
    ensures
        dep_views(final(deps)@) == dep_views(old(deps)@) + (match d {
            Some(x) => seq![x@],
            None => Seq::empty(),
        }),
{
    match d {
        Some(x) => {
            proof {
                lemma_dep_push(deps@, x);
                assert(dep_views(deps@).push(x@) =~= dep_views(deps@) + seq![x@]);
            }
            deps.push(x);
        },
        None => {
            assert(dep_views(deps@) =~= dep_views(deps@) + Seq::empty());
        },
    }
}

fn append_deps(deps: &mut Vec<ExtractedDep>, more: &mut Vec<ExtractedDep>)
    ensures
        dep_views(final(deps)@) == dep_views(old(deps)@) + dep_views(old(more)@),
{
    deps.append(more);
    assert(dep_views(deps@) =~= dep_views(old(deps)@) + dep_views(old(more)@));
}

/// Extracts the configuration from the tree of a terragrunt file.
pub fn extract_config(file: &Contents) -> (res: TerragruntConfig)
    ensures
        res@ == config_of(file@),
{
    let ghost views = file@.items;
    let mut deps: Vec<ExtractedDep> = Vec::new();
    let mut has_source = false;
    let mut i: usize = 0;
    assert(dep_views(deps@) =~= file_block_deps(views.take(0)));
    while i < file.items.len()
        invariant
            i <= file.items@.len(),
            views == file@.items,
            dep_views(deps@) == file_block_deps(views.take(i as int)),
            has_source == exists|j: int| 0 <= j < i && is_source_block(#[trigger] views[j]),
        decreases file.items@.len() - i,
    {
        proof {
            assert(views.take(i + 1).drop_last() =~= views.take(i as int));
            assert(views.take(i + 1).last() == file.items@[i as int].view());
            assert(views[i as int] == file.items@[i as int].view());
        }
        match &file.items[i] {
            Structure::Block(b) => {
                put_block(b, &mut deps);
                if same(b.identifier.as_str(), "terraform") && find_attr(&b.body, "source").is_some() {
                    has_source = true;
                    assert(is_source_block(views[i as int]));
                }
            },
            Structure::Attribute(_) => {
                assert(dep_views(deps@) =~= file_block_deps(views.take(i as int)) + Seq::empty());
            },
        }
        i += 1;
    }
    assert(views.take(i as int) =~= views);
    TerragruntConfig { deps, has_terraform_source: has_source }
}

/// Parses the text of a terragrunt.hcl file.
pub fn parse_terragrunt_file(content: &str) -> (res: Result<TerragruntConfig, ParseError>)
    ensures
        match res {
            Ok(config) => parsed_body(content@) is Ok && config@ == config_of(parsed_body(content@)->Ok_0),
            Err(e) => parsed_body(content@) is Err && e is HclError && e->HclError_0@ == parsed_body(content@)->Err_0,
        },
{
    match parse_hcl(content) {
        Ok(file) => Ok(extract_config(&file)),
        Err(message) => Err(ParseError::HclError(message)),
    }
}

// ---------------------------------------------------------------------- copies

/// A copy of a path expression.
pub fn copy_path(p: &PathExpr) -> (res: PathExpr)
    ensures
        res@ == p@,
    decreases p,
{
    match p {
        PathExpr::Literal(t) => PathExpr::Literal(t.clone()),
        PathExpr::FindInParentFolders(t) => PathExpr::FindInParentFolders(clone_opt(t)),
        PathExpr::GetRepoRoot => PathExpr::GetRepoRoot,
        PathExpr::GetTerragruntDir => PathExpr::GetTerragruntDir,
        PathExpr::GetParentTerragruntDir => PathExpr::GetParentTerragruntDir,
        PathExpr::PathRelativeToInclude => PathExpr::PathRelativeToInclude,
        PathExpr::PathRelativeFromInclude => PathExpr::PathRelativeFromInclude,
        PathExpr::Dirname(x) => PathExpr::Dirname(Box::new(copy_path(x))),
        PathExpr::Format { fmt, args } => {
            let copies = copy_paths(args);
            proof {
                lemma_format_view(*fmt, *args);
                assert(path_views(copies@) =~= path_views(args@));
            }
            let name = fmt.clone();
            proof {
                lemma_format_view(name, copies);
            }
            PathExpr::Format { fmt: name, args: copies }
        },
        PathExpr::Interpolation(parts) => {
            let copies = copy_paths(parts);
            proof {
                lemma_interpolation_view(*parts);
                assert(path_views(copies@) =~= path_views(parts@));
                lemma_interpolation_view(copies);
            }
            PathExpr::Interpolation(copies)
        },
        PathExpr::Unresolvable { func } => PathExpr::Unresolvable { func: func.clone() },
        PathExpr::Conditional { true_branch, false_branch } => PathExpr::Conditional {
            true_branch: Box::new(copy_path(true_branch)),
            false_branch: Box::new(copy_path(false_branch)),
        },
        PathExpr::ValuesRef(keys) => PathExpr::ValuesRef(clone_texts(keys)),
        PathExpr::HclExpr(e) => PathExpr::HclExpr(Box::new(copy_expr(e))),
    }
}

fn copy_paths(items: &Vec<PathExpr>) -> (res: Vec<PathExpr>)
    ensures
        res@.len() == items@.len(),
        forall|i: int| 0 <= i < items@.len() ==> (#[trigger] res@[i])@ == items@[i]@,
    decreases items,
{
    let mut out: Vec<PathExpr> = Vec::new();
    let mut i: usize = 0;
    while i < items.len()
        invariant
            i <= items@.len(),
            out@.len() == i,
            forall|j: int| 0 <= j < i ==> (#[trigger] out@[j])@ == items@[j]@,
        decreases items@.len() - i,
    {
        assert(decreases_to!(items => items@[i as int]));
        let item = copy_path(&items[i]);
        out.push(item);
        i += 1;
    }
    out
}

impl Clone for TerragruntConfig {
    fn clone(&self) -> (res: Self)
        ensures
            res@ == self@,
    {
        let mut deps: Vec<ExtractedDep> = Vec::new();
        let mut i: usize = 0;
        while i < self.deps.len()
            invariant
                i <= self.deps@.len(),
                deps@.len() == i,
                forall|j: int| 0 <= j < i ==> (#[trigger] deps@[j])@ == self.deps@[j]@,
            decreases self.deps@.len() - i,
        {
            let d = &self.deps[i];
            deps.push(
                ExtractedDep {
                    kind: d.kind,
                    path: copy_path(&d.path),
                    name: clone_opt(&d.name),
                    enabled: d.enabled,
                },
            );
            i += 1;
        }
        assert(dep_views(deps@) =~= dep_views(self.deps@));
        TerragruntConfig { deps, has_terraform_source: self.has_terraform_source }
    }
}

} // verus!
