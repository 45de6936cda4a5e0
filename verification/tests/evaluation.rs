use std::collections::{BTreeMap, BTreeSet};

use hcl::eval::{Context, Evaluate, FuncArgs, FuncDef, ParamType};
use hcl::expr::{
    BinaryOp, BinaryOperator, Conditional, ForExpr, FuncCall, FuncName, Operation, TemplateExpr, Traversal,
    TraversalOperator as HclOperator, UnaryOp, UnaryOperator, Variable,
};
use hcl::{Expression, Identifier, Value};
use terragrunt_dag::builtins::get_entry;
use terragrunt_dag::cache::ParseCache;
use terragrunt_dag::discovery::{discover_files, discover_projects};
use terragrunt_dag::functions::{all_functions, call_function, Function, ParamKind, Surroundings};
use terragrunt_dag::gha::{generate_gha, GhaCell, GhaOptions, GhaUnit};
use terragrunt_dag::hcl_eval::{contains_try, evaluate_expression, evaluate_locals, Scope};
use terragrunt_dag::names::NameSet;
use terragrunt_dag::output::make_relative;
use terragrunt_dag::parser::{find_attr, PathExpr, TerragruntConfig};
use terragrunt_dag::path::join;
use terragrunt_dag::pipeline::select_projects;
use terragrunt_dag::processor::{
    derive_dependency_name, derive_project_name, process_all_projects, process_project_with_deps,
    process_project_with_deps_with_values, process_projects, DependencyStyle, ProcessError, ProjectResult,
};
use terragrunt_dag::project::Project;
use terragrunt_dag::resolver::{
    empty_object, find_in_parent_folders, find_repo_root, normalize_path, Event, ResolveContext, ResolveOptions,
};
use terragrunt_dag::source::parse_hcl;
use terragrunt_dag::stack::{
    expand, expand_with_options, nearest_stack_ancestor, summarize, EvalReport, ExpandedDiscovery, StackBinding,
};
use terragrunt_dag::stack_file::{parse_stack_file, BlockKind, ParsedStack};
use terragrunt_dag::syntax::{Contents, Expr, HclValue, Number, ObjectKey, TraversalOperator};
use terragrunt_dag::world::{Answer, Facts, Query, Request, Step};

// ============== A file system in memory ==============

struct World {
    files: BTreeMap<String, String>,
    dirs: BTreeSet<String>,
    cache: ParseCache,
}

impl World {
    fn new() -> World {
        World { files: BTreeMap::new(), dirs: BTreeSet::new(), cache: ParseCache::new() }
    }

    fn write(&mut self, path: &str, content: &str) {
        self.files.insert(path.to_string(), content.to_string());
    }

    fn make_dir(&mut self, path: &str) {
        self.dirs.insert(path.to_string());
    }

    /// Writes a `terragrunt.stack.hcl` at `dir/terragrunt.stack.hcl`.
    fn write_stack(&mut self, dir: &str, body: &str) {
        self.write(&join(dir, "terragrunt.stack.hcl"), body);
    }

    /// Writes a stub `terragrunt.hcl` so a synthetic unit looks like a real module.
    fn write_terragrunt(&mut self, dir: &str) {
        self.write(&join(dir, "terragrunt.hcl"), "terraform { source = \".\" }\n");
    }

    fn present(&self, path: &str) -> bool {
        let path = normalize_path(path);
        let below = if path.ends_with('/') { path.clone() } else { format!("{}/", path) };
        self.files.contains_key(&path)
            || self.dirs.contains(&path)
            || self.files.keys().any(|f| f.starts_with(&below))
            || self.dirs.iter().any(|d| d.starts_with(&below))
    }

    fn canonical(&self, path: &str) -> Option<String> {
        if self.present(path) {
            Some(normalize_path(path))
        } else {
            None
        }
    }

    fn read(&self, path: &str) -> Result<&String, String> {
        self.files.get(&normalize_path(path)).ok_or(format!("no such file: {}", path))
    }

    fn config(&mut self, path: &str) -> Result<TerragruntConfig, String> {
        let content = self.read(path)?.clone();
        let key = normalize_path(path);
        self.cache.get_or_parse(&key, &content).map_err(|e| e.to_text())
    }

    fn stack(&self, path: &str) -> Result<ParsedStack, String> {
        parse_stack_file(path, self.read(path)?).map_err(|e| e.to_text())
    }

    fn repo_root(&self, dir: &str) -> Option<String> {
        let mut at = dir.to_string();
        loop {
            if self.present(&join(&at, ".git")) {
                return Some(at);
            }
            let cut = at.rfind('/')?;
            if cut == 0 {
                return None;
            }
            at = at[..cut].to_string();
        }
    }

    /// Runs a computation to its end: finds out whatever it needs to know, and runs it again.
    fn settle<T>(&mut self, run: impl Fn(&Facts) -> Step<T>) -> T {
        let mut facts = Facts::new();
        loop {
            match run(&facts) {
                Step::Done(result) => return result,
                Step::Need(Query::Present(path)) => facts.add_present(&path, self.present(&path)),
                Step::Need(Query::IsFile(path)) => {
                    let found = self.files.contains_key(&normalize_path(&path));
                    facts.add_is_file(&path, found);
                }
                Step::Need(Query::Canonical(path)) => facts.add_canonical(&path, self.canonical(&path)),
                Step::Need(Query::Config(path)) => {
                    let config = self.config(&path);
                    facts.add_config(&path, config);
                }
                Step::Need(Query::Stack(path)) => facts.add_stack(&path, self.stack(&path)),
                Step::Need(Query::Evaluate(request)) => {
                    let answer = self.evaluate(&request);
                    facts.add_evaluation(request, answer);
                }
            }
        }
    }

    fn expand(&mut self, stack_files: Vec<String>) -> ExpandedDiscovery {
        self.settle(|facts| expand(facts, &vec![], &stack_files))
    }

    fn process(&mut self, project_dir: &str) -> Result<Project, ProcessError> {
        self.settle(|facts| process_project_with_deps(facts, project_dir))
    }

    /// All paths below a directory, directories too.
    fn walk(&self, root: &str) -> Vec<String> {
        let below = format!("{}/", root);
        let mut found = BTreeSet::new();
        for path in self.files.keys().filter(|p| p.starts_with(&below)) {
            found.insert(path.clone());
        }
        found.into_iter().collect()
    }

    /// Discovers, expands and processes what lies below a directory.
    fn run(&mut self, root: &str) -> Vec<Project> {
        let found = discover_files(root, &self.walk(root));
        let expanded = self.settle(|facts| expand(facts, &found.units, &found.stack_files));
        let unit_dirs = expanded.unit_dirs;
        let mut results = self.settle(|facts| process_all_projects(facts, &unit_dirs, DependencyStyle::Path));
        for project in expanded.synthetic_projects {
            results.push(ProjectResult::Processed(project));
        }
        select_projects(results).projects
    }

    // -------------- evaluation --------------

    fn evaluate(&self, request: &Request) -> Answer {
        let mut asked = Asked {
            repo_root: self.repo_root(&request.terragrunt_dir),
            terragrunt_dir: request.terragrunt_dir.clone(),
            parent_dir: request.parent_dir.clone(),
            file_calls: vec![],
        };
        let expr = match asked.expression(&request.expr) {
            Ok(expr) => expr,
            Err(message) => return Answer { result: Err(message), file_calls: vec![] },
        };
        let mut ctx = build_context(&request.values, &request.locals, request.strict);
        for (name, value) in &request.bindings {
            ctx.declare_var(name.as_str(), to_hcl(value));
        }
        let result = expr.evaluate(&ctx).map(|v| from_hcl(&v)).map_err(|e| e.to_string());
        Answer { result, file_calls: asked.file_calls }
    }
}

/// Turns expressions into those of the evaluator, with the directories filled in.
struct Asked {
    repo_root: Option<String>,
    terragrunt_dir: String,
    parent_dir: Option<String>,
    file_calls: Vec<String>,
}

impl Asked {
    fn expressions(&mut self, items: &[Expr]) -> Result<Vec<Expression>, String> {
        items.iter().map(|e| self.expression(e)).collect()
    }

    fn fill_in(&self, raw: &str) -> String {
        let root = self.repo_root.clone().unwrap_or_default();
        raw.replace("get_repo_root()", &format!("\"{}\"", root))
            .replace("get_terragrunt_dir()", &format!("\"{}\"", self.terragrunt_dir))
    }

    fn expression(&mut self, expr: &Expr) -> Result<Expression, String> {
        Ok(match expr {
            Expr::Null => Expression::Null,
            Expr::Bool(b) => Expression::Bool(*b),
            Expr::Number(n) => Expression::Number(number_of(n)),
            Expr::String(s) => Expression::String(s.clone()),
            Expr::Array(items) => Expression::Array(self.expressions(items)?),
            Expr::Object(items) => {
                let mut object = hcl::Object::new();
                for (key, value) in items {
                    let key = match key {
                        ObjectKey::Identifier(i) => hcl::ObjectKey::Identifier(ident(i)?),
                        ObjectKey::Expression(e) => hcl::ObjectKey::Expression(self.expression(e)?),
                    };
                    let value = self.expression(value)?;
                    object.insert(key, value);
                }
                Expression::Object(object)
            }
            Expr::Template { raw, .. } => {
                Expression::TemplateExpr(Box::new(TemplateExpr::QuotedString(self.fill_in(raw))))
            }
            Expr::Variable(name) => Expression::Variable(Variable::new(name.as_str()).map_err(|e| e.to_string())?),
            Expr::Traversal { expr, operators } => {
                let mut steps = vec![];
                for operator in operators {
                    steps.push(match operator {
                        TraversalOperator::AttrSplat => HclOperator::AttrSplat,
                        TraversalOperator::FullSplat => HclOperator::FullSplat,
                        TraversalOperator::GetAttr(name) => HclOperator::GetAttr(ident(name)?),
                        TraversalOperator::Index(e) => HclOperator::Index(self.expression(e)?),
                        TraversalOperator::LegacyIndex(n) => HclOperator::LegacyIndex(*n),
                    });
                }
                Expression::Traversal(Box::new(Traversal::new(self.expression(expr)?, steps)))
            }
            Expr::FuncCall { name, args, expand_final, .. } => {
                if name == "get_repo_root" {
                    return self.repo_root.clone().map(Expression::String).ok_or("not in a repository".to_string());
                }
                if name == "get_terragrunt_dir" {
                    return Ok(Expression::String(self.terragrunt_dir.clone()));
                }
                if name == "get_parent_terragrunt_dir" {
                    return Ok(Expression::String(self.parent_dir.clone().unwrap_or_default()));
                }
                if all_functions().iter().any(|f| f.name() == name && f.looks_outside()) {
                    self.file_calls.push(name.clone());
                }
                let mut call = FuncCall::new(FuncName::new(ident(name)?));
                call.args = self.expressions(args)?;
                call.expand_final = *expand_final;
                Expression::FuncCall(Box::new(call))
            }
            Expr::Parenthesis(e) => Expression::Parenthesis(Box::new(self.expression(e)?)),
            Expr::Conditional { cond, yes, no } => Expression::Conditional(Box::new(Conditional::new(
                self.expression(cond)?,
                self.expression(yes)?,
                self.expression(no)?,
            ))),
            Expr::Unary { operator, expr } => {
                let operator = operator.parse::<UnaryOperator>().map_err(|e| e.to_string())?;
                Expression::Operation(Box::new(Operation::Unary(UnaryOp::new(operator, self.expression(expr)?))))
            }
            Expr::Binary { lhs, operator, rhs } => {
                let operator = operator.parse::<BinaryOperator>().map_err(|e| e.to_string())?;
                let operation = BinaryOp::new(self.expression(lhs)?, operator, self.expression(rhs)?);
                Expression::Operation(Box::new(Operation::Binary(operation)))
            }
            Expr::For { key_var, value_var, collection, key, value, grouping, cond } => {
                let collection = self.expression(collection)?;
                let mut result = ForExpr::new(ident(value_var)?, collection, self.expression(value)?);
                if let Some(name) = key_var {
                    result = result.with_key_var(ident(name)?);
                }
                if let Some(key) = key {
                    result = result.with_key_expr(self.expression(key)?);
                }
                if let Some(cond) = cond {
                    result = result.with_cond_expr(self.expression(cond)?);
                }
                Expression::ForExpr(Box::new(result.with_grouping(*grouping)))
            }
            Expr::Unknown => return Err("unsupported expression".to_string()),
        })
    }
}

fn ident(name: &str) -> Result<Identifier, String> {
    Identifier::new(name).map_err(|e| e.to_string())
}

fn number_of(n: &Number) -> hcl::Number {
    match n {
        Number::PosInt(u) => hcl::Number::from(*u),
        Number::NegInt(i) => hcl::Number::from(*i),
        Number::Float(t) => hcl::Number::from_f64(t.parse::<f64>().unwrap()).unwrap(),
    }
}

fn to_hcl(value: &HclValue) -> Value {
    match value {
        HclValue::Null => Value::Null,
        HclValue::Bool(b) => Value::Bool(*b),
        HclValue::Number(n) => Value::Number(number_of(n)),
        HclValue::String(s) => Value::String(s.clone()),
        HclValue::Array(items) => Value::Array(items.iter().map(to_hcl).collect()),
        HclValue::Object(items) => Value::Object(items.iter().map(|(k, v)| (k.clone(), to_hcl(v))).collect()),
    }
}

fn from_hcl(value: &Value) -> HclValue {
    match value {
        Value::Null => HclValue::Null,
        Value::Bool(b) => HclValue::Bool(*b),
        Value::Number(n) => HclValue::Number(match (n.as_u64(), n.as_i64()) {
            (Some(u), _) => Number::PosInt(u),
            (None, Some(i)) => Number::NegInt(i),
            (None, None) => Number::Float(n.to_string()),
        }),
        Value::String(s) => HclValue::String(s.clone()),
        Value::Array(items) => HclValue::Array(items.iter().map(from_hcl).collect()),
        Value::Object(items) => HclValue::Object(items.iter().map(|(k, v)| (k.clone(), from_hcl(v))).collect()),
    }
}

type Entry = fn(FuncArgs) -> Result<Value, String>;

/// The entries of the functions, by their positions in the table; first those that are lenient, then
/// those that are strict.
const LENIENT: [Entry; 36] = [
    call::<0, false>, call::<1, false>, call::<2, false>, call::<3, false>, call::<4, false>, call::<5, false>, call::<6, false>, call::<7, false>,
    call::<8, false>, call::<9, false>, call::<10, false>, call::<11, false>, call::<12, false>, call::<13, false>, call::<14, false>, call::<15, false>,
    call::<16, false>, call::<17, false>, call::<18, false>, call::<19, false>, call::<20, false>, call::<21, false>, call::<22, false>, call::<23, false>,
    call::<24, false>, call::<25, false>, call::<26, false>, call::<27, false>, call::<28, false>, call::<29, false>, call::<30, false>, call::<31, false>,
    call::<32, false>, call::<33, false>, call::<34, false>, call::<35, false>,
];

const STRICT: [Entry; 36] = [
    call::<0, true>, call::<1, true>, call::<2, true>, call::<3, true>, call::<4, true>, call::<5, true>, call::<6, true>, call::<7, true>,
    call::<8, true>, call::<9, true>, call::<10, true>, call::<11, true>, call::<12, true>, call::<13, true>, call::<14, true>, call::<15, true>,
    call::<16, true>, call::<17, true>, call::<18, true>, call::<19, true>, call::<20, true>, call::<21, true>, call::<22, true>, call::<23, true>,
    call::<24, true>, call::<25, true>, call::<26, true>, call::<27, true>, call::<28, true>, call::<29, true>, call::<30, true>, call::<31, true>,
    call::<32, true>, call::<33, true>, call::<34, true>, call::<35, true>,
];

fn call<const POSITION: usize, const STRICTLY: bool>(args: FuncArgs) -> Result<Value, String> {
    let notations = args.iter().map(|v| v.to_string()).collect();
    let items = match args.iter().nth(1) {
        Some(Value::Array(items)) => items.iter().map(|v| v.to_string()).collect(),
        _ => vec![],
    };
    let alike = match args.iter().next() {
        Some(Value::Array(items)) => items.iter().map(|v| v == args.iter().nth(1).unwrap_or(&Value::Null)).collect(),
        _ => vec![],
    };
    let args = args.iter().map(from_hcl).collect();
    let around =
        Surroundings { terragrunt_dir: String::new(), parent_dir: None, repo_root: None, strict: STRICTLY };
    call_function(all_functions()[POSITION], &args, &notations, &items, &alike, &around).map(|v| to_hcl(&v))
}

fn param(kind: ParamKind) -> ParamType {
    match kind {
        ParamKind::Any => ParamType::Any,
        ParamKind::Text => ParamType::String,
        ParamKind::List => ParamType::Array(Box::new(ParamType::Any)),
        ParamKind::Dictionary => ParamType::Object(Box::new(ParamType::Any)),
    }
}

fn build_context(values: &HclValue, locals: &HclValue, strict: bool) -> Context<'static> {
    let mut ctx = Context::new();
    ctx.declare_var("values", to_hcl(values));
    ctx.declare_var("local", to_hcl(locals));
    let entries = if strict { STRICT } else { LENIENT };
    for (function, entry) in all_functions().into_iter().zip(entries) {
        let signature = function.signature();
        let params: Vec<ParamType> = signature.params.into_iter().map(param).collect();
        let mut definition = FuncDef::builder().params(params);
        if let Some(kind) = signature.rest {
            definition = definition.variadic_param(param(kind));
        }
        ctx.declare_func(function.name(), definition.build(entry));
    }
    ctx
}

// ============== Values ==============

fn obj(entries: &[(&str, HclValue)]) -> HclValue {
    HclValue::Object(entries.iter().map(|(k, v)| (k.to_string(), v.clone())).collect())
}

fn number(n: u64) -> HclValue {
    HclValue::Number(Number::PosInt(n))
}

fn get<'a>(items: &'a Vec<(String, HclValue)>, key: &str) -> Option<&'a HclValue> {
    get_entry(items, key)
}

fn parse_expr(src: &str) -> Expr {
    let body = parse_hcl(&format!("x = {}\n", src)).unwrap_or_else(|e| panic!("failed to parse {:?}: {}", src, e));
    find_attr(&body, "x").unwrap().clone()
}

fn scope(values: &HclValue, locals: &HclValue) -> Scope {
    Scope {
        values: values.clone(),
        locals: locals.clone(),
        terragrunt_dir: "/repo/live".to_string(),
        parent_dir: None,
        strict: false,
    }
}

fn eval(src: &str, values: &HclValue, locals: &HclValue) -> Result<HclValue, String> {
    let expr = parse_expr(src);
    let scope = scope(values, locals);
    World::new().settle(|facts| evaluate_expression(facts, &expr, &scope)).result
}

fn locals_in(body: &Contents, values: &HclValue) -> Result<HclValue, String> {
    let scope = scope(values, &empty_object());
    World::new().settle(|facts| evaluate_locals(facts, body, &scope)).result
}

// ============== Scenarios ==============

fn resolver_path(name: &str) -> String {
    format!("/fixtures/resolver/{}", name)
}

fn processor_path(name: &str) -> String {
    format!("/fixtures/processor/{}", name)
}

fn stack_path(name: &str) -> String {
    format!("/fixtures/stack/{}", name)
}

fn resolve(ctx: &ResolveContext, path_expr: &PathExpr) -> Option<String> {
    World::resolver().settle(|facts| ctx.resolve(facts, path_expr)).0
}

fn repo_root_of(ctx: &ResolveContext) -> Option<String> {
    World::resolver().settle(|facts| ctx.repo_root(facts))
}

fn binding_of<'a>(expanded: &'a ExpandedDiscovery, unit_dir: &str) -> Option<&'a StackBinding> {
    expanded.stack_bindings.iter().find(|(dir, _)| dir == unit_dir).map(|(_, binding)| binding)
}

impl World {
    fn resolver() -> World {
        let mut world = World::new();
        world.make_dir(&resolver_path("repo/.git"));
        world.make_dir(&resolver_path("repo_with_template/.git"));
        world.write(&resolver_path("repo/root.hcl"), "");
        world.write(&resolver_path("repo/live/terragrunt.hcl"), "");
        world.write(&resolver_path("repo/live/prod/region.hcl"), "");
        world.write(&resolver_path("repo_with_template/root.hcl"), "");
        world.make_dir(&resolver_path("no_git_repo/project"));
        world
    }

    fn processor() -> World {
        let mut world = World::new();
        world.write(
            &processor_path("with_read_terragrunt_config/app/terragrunt.hcl"),
            r#"
            locals {
              common = read_terragrunt_config("../common.hcl")
            }

            terraform {
              source = "../modules/app"
            }

            dependency "rds" {
              config_path = "../rds"
            }
            "#,
        );
        world.write(
            &processor_path("with_read_terragrunt_config/common.hcl"),
            r#"
            locals {
              data = yamldecode(file("data/common.yaml"))
            }

            dependency "shared_vpc" {
              config_path = "../shared/vpc"
            }
            "#,
        );
        world.write(
            &processor_path("with_include_deps/live/prod/app/terragrunt.hcl"),
            r#"
            include "root" {
              path = find_in_parent_folders("root.hcl")
            }

            dependency "vpc" {
              config_path = "../vpc"
            }
            "#,
        );
        world.write(
            &processor_path("with_include_deps/live/root.hcl"),
            r#"
            locals {
              config = yamldecode(file("config.yaml"))
            }
            "#,
        );
        world.write(
            &processor_path("with_nested_read_config/app/terragrunt.hcl"),
            r#"
            locals {
              env = read_terragrunt_config("../env.hcl")
            }
            "#,
        );
        world.write(
            &processor_path("with_nested_read_config/env.hcl"),
            r#"
            locals {
              base = read_terragrunt_config("base.hcl")
              data = file("env.yaml")
            }
            "#,
        );
        world.write(
            &processor_path("with_nested_read_config/base.hcl"),
            r#"
            locals {
              data = file("base.yaml")
            }
            "#,
        );
        world.write(
            &processor_path("with_circular_reference/app/terragrunt.hcl"),
            r#"
            locals {
              a = read_terragrunt_config("../a.hcl")
            }
            "#,
        );
        world.write(
            &processor_path("with_circular_reference/a.hcl"),
            r#"
            locals {
              b = read_terragrunt_config("b.hcl")
            }
            "#,
        );
        world.write(
            &processor_path("with_circular_reference/b.hcl"),
            r#"
            locals {
              a = read_terragrunt_config("a.hcl")
            }
            "#,
        );
        world
    }

    /// A module whose dependency is where `values.<path>` says.
    fn write_module(&mut self, dir: &str, path: &str) {
        let content = format!(
            "terraform {{\n  source = \"./src\"\n}}\n\ndependency \"dep\" {{\n  config_path = {}\n}}\n",
            path
        );
        self.write(&join(dir, "terragrunt.hcl"), &content);
    }

    fn stacks() -> World {
        let mut world = World::new();

        for tree in ["with_shared_module", "with_generated_dir"] {
            world.write_stack(
                &stack_path(&format!("{}/live/staging/auth", tree)),
                r#"
                unit "alpha" {
                  source = "../../../_modules/auth"
                  path   = "azure/alpha"
                  values = { tenant = "alpha" }
                }

                unit "beta" {
                  source = "../../../_modules/auth"
                  path   = "saml/beta"
                  values = { tenant = "beta" }
                }
                "#,
            );
            world.write_terragrunt(&stack_path(&format!("{}/_modules/auth", tree)));
        }
        for unit in ["azure/alpha", "saml/beta"] {
            let generated = format!("with_generated_dir/live/staging/auth/.terragrunt-stack/{}", unit);
            world.write_terragrunt(&stack_path(&generated));
        }

        world.write_stack(
            &stack_path("values_simple_dep/live/staging/svc"),
            r#"
            unit "main" {
              source = "../../../_modules/svc"
              path   = "main"
              values = { dep = "../../sibling" }
            }
            "#,
        );
        world.write_module(&stack_path("values_simple_dep/_modules/svc"), "values.dep");
        world.make_dir(&stack_path("values_simple_dep/live/staging/svc/sibling"));
        world.make_dir(&stack_path("values_simple_dep/live/staging/svc/.terragrunt-stack/main"));

        world.write_stack(
            &stack_path("values_merge_format/live/staging/svc"),
            r#"
            locals {
              region = "eu"
              common = { env = "prod" }
            }

            unit "main" {
              source = "../../../_modules/svc"
              path   = "main"
              values = merge({ a = "../../base" }, local.common, { b = format("../../svc-%s", local.region) })
            }
            "#,
        );
        world.write(
            &stack_path("values_merge_format/_modules/svc/terragrunt.hcl"),
            r#"
            terraform {
              source = "./src"
            }

            dependencies {
              paths = [values.a, values.b]
            }
            "#,
        );
        world.make_dir(&stack_path("values_merge_format/live/staging/svc/base"));
        world.make_dir(&stack_path("values_merge_format/live/staging/svc/svc-eu"));
        world.make_dir(&stack_path("values_merge_format/live/staging/svc/.terragrunt-stack/main"));

        world.write_stack(
            &stack_path("values_nested_stacks/live/svc"),
            r#"
            stack "azure" {
              source = "../../_stacks/azure"
              path   = "azure"
              values = { cloud = "azure" }
            }
            "#,
        );
        world.write_stack(
            &stack_path("values_nested_stacks/live/svc/.terragrunt-stack/azure"),
            r#"
            unit "svc" {
              source = "../../../../_modules/svc"
              path   = "svc"
              values = { dep = "../${values.cloud}_base" }
            }
            "#,
        );
        world.write_module(&stack_path("values_nested_stacks/_modules/svc"), "values.dep");
        let azure = "values_nested_stacks/live/svc/.terragrunt-stack/azure/.terragrunt-stack";
        world.make_dir(&stack_path(&format!("{}/azure_base", azure)));
        world.make_dir(&stack_path(&format!("{}/svc", azure)));

        world.write_stack(
            &stack_path("values_three_levels/live"),
            r#"
            stack "azure" {
              source = "../_stacks/region"
              path   = "azure/east-us"
              values = { cloud = "azure", env = "prod" }
            }
            "#,
        );
        world.write_stack(
            &stack_path("values_three_levels/live/.terragrunt-stack/azure/east-us"),
            r#"
            stack "k8s" {
              source = "../../_stacks/cluster"
              path   = "k8s"
              values = { cluster = "${values.cloud}-${values.env}" }
            }
            "#,
        );
        let k8s = "values_three_levels/live/.terragrunt-stack/azure/east-us/.terragrunt-stack/k8s";
        world.write_stack(
            &stack_path(k8s),
            r#"
            unit "svc" {
              source = "../../../../../../_modules/svc"
              path   = "svc"
              values = { dep = "../${values.cluster}_base" }
            }
            "#,
        );
        world.write_module(&stack_path("values_three_levels/_modules/svc"), "values.dep");
        world.make_dir(&stack_path(&format!("{}/.terragrunt-stack/azure-prod_base", k8s)));

        world.write_stack(
            &stack_path("values_unresolvable/live/svc"),
            r#"
            unit "svc" {
              source = "../../_modules/svc"
              path   = "svc"
              values = { dep = "../${values.undefined}" }
            }
            "#,
        );
        world.write_module(&stack_path("values_unresolvable/_modules/svc"), "values.dep");

        world.write_stack(
            &stack_path("values_lazy_try/live/svc"),
            r#"
            unit "svc" {
              source = "../../_modules/svc"
              path   = "svc"
              values = {
                extras = try(values.optional_extras, ["fallback"])
                dep    = "../base"
              }
            }
            "#,
        );
        world.write_module(&stack_path("values_lazy_try/_modules/svc"), "values.dep");
        world.make_dir(&stack_path("values_lazy_try/live/svc/.terragrunt-stack/base"));

        world.write_stack(
            &stack_path("values_bare_local/live/svc"),
            r#"
            locals {
              shared_dep = "../base"
            }

            unit "svc" {
              source = "../../_modules/svc"
              path   = "svc"
              values = { all_locals = local }
            }
            "#,
        );
        world.write_module(&stack_path("values_bare_local/_modules/svc"), "values.all_locals.shared_dep");
        world.make_dir(&stack_path("values_bare_local/live/svc/.terragrunt-stack/base"));

        world.write_stack(
            &stack_path("values_for_expression/live/svc"),
            r#"
            locals {
              customers = { alice = {}, bob = {} }
              groups    = { for name, _ in local.customers : "team/${name}" => name }
            }

            unit "svc" {
              source = "../../_modules/svc"
              path   = "svc"
              values = {
                groups = local.groups
                dep    = "../base"
              }
            }
            "#,
        );
        world.write_module(&stack_path("values_for_expression/_modules/svc"), "values.dep");
        world.make_dir(&stack_path("values_for_expression/live/svc/.terragrunt-stack/base"));
        world.make_dir(&stack_path("values_for_expression/live/svc/.terragrunt-stack/svc"));

        world.make_dir(&stack_path("source_with_get_repo_root/.git"));
        world.write_stack(
            &stack_path("source_with_get_repo_root/live"),
            r#"
            locals {
              unseal_type = "shamir"
            }

            unit "unseal" {
              source = "${get_repo_root()}/modules/vault/unseal/${local.unseal_type}"
              path   = "unseal"
            }
            "#,
        );
        world.write_terragrunt(&stack_path("source_with_get_repo_root/modules/vault/unseal/shamir"));

        world.make_dir(&stack_path("recursive_stack_sources/.git"));
        world.write_stack(
            &stack_path("recursive_stack_sources/live"),
            r#"
            stack "consul" {
              source = "${get_repo_root()}/stacks/consul"
              path   = "consul"
            }

            stack "vault" {
              source = "${get_repo_root()}/stacks/vault"
              path   = "vault"
              values = { unseal_type = "shamir" }
            }
            "#,
        );
        world.write_stack(
            &stack_path("recursive_stack_sources/stacks/consul"),
            r#"
            unit "agent" {
              source = "${get_repo_root()}/modules/consul/agent"
              path   = "agent"
            }
            "#,
        );
        world.write_stack(
            &stack_path("recursive_stack_sources/stacks/vault"),
            r#"
            locals {
              unseal_type = values.unseal_type
            }

            unit "core" {
              source = "${get_repo_root()}/modules/vault/core"
              path   = "core"
            }

            unit "unseal" {
              source = "${get_repo_root()}/modules/vault/unseal/${local.unseal_type}"
              path   = "unseal"
            }
            "#,
        );
        world.write_terragrunt(&stack_path("recursive_stack_sources/modules/consul/agent"));
        world.write_terragrunt(&stack_path("recursive_stack_sources/modules/vault/core"));
        world.write_terragrunt(&stack_path("recursive_stack_sources/modules/vault/unseal/shamir"));
        world
    }
}

// ============== Evaluation ==============

#[test]
fn bare_local_returns_full_locals_object() {
    let locals = obj(&[("x", HclValue::String("1".into())), ("y", HclValue::String("2".into()))]);
    let out = eval("local", &empty_object(), &locals).unwrap();
    assert_eq!(out, locals);
}

#[test]
fn bare_values_returns_full_values_object() {
    let values = obj(&[("a", HclValue::String("x".into())), ("b", HclValue::String("y".into()))]);
    let out = eval("values", &values, &empty_object()).unwrap();
    assert_eq!(out, values);
}

#[test]
fn evaluates_values_traversal() {
    let values = obj(&[("dep", HclValue::String("../sg".into()))]);
    let out = eval("values.dep", &values, &empty_object()).unwrap();
    assert_eq!(out, HclValue::String("../sg".into()));
}

#[test]
fn merge_rhs_keys_win() {
    let values = empty_object();
    let locals = empty_object();
    let out = eval(r#"merge({ a = "1", b = "2" }, { b = "3", c = "4" })"#, &values, &locals).unwrap();
    let map = match out {
        HclValue::Object(m) => m,
        _ => panic!("expected object"),
    };
    assert_eq!(get(&map, "a"), Some(&HclValue::String("1".into())));
    assert_eq!(get(&map, "b"), Some(&HclValue::String("3".into())));
    assert_eq!(get(&map, "c"), Some(&HclValue::String("4".into())));
}

#[test]
fn format_substitutes_string_verbs() {
    let values = obj(&[("region", HclValue::String("eu".into()))]);
    let out = eval(r#"format("svc-%s", values.region)"#, &values, &empty_object()).unwrap();
    assert_eq!(out, HclValue::String("svc-eu".into()));
}

#[test]
fn coalesce_returns_first_non_null() {
    let out = eval("coalesce(null, null, \"x\")", &empty_object(), &empty_object())
        .unwrap();
    assert_eq!(out, HclValue::String("x".into()));
}

#[test]
fn try_returns_first_non_null() {
    let out =
        eval("try(null, \"fallback\")", &empty_object(), &empty_object()).unwrap();
    assert_eq!(out, HclValue::String("fallback".into()));
}

#[test]
fn lazy_try_returns_fallback_when_first_arg_errors() {
    // `values.missing` raises an HCL error; lazy `try` should catch it
    // and fall through to the literal default.
    let out =
        eval(r#"try(values.missing, "default")"#, &empty_object(), &empty_object())
            .unwrap();
    assert_eq!(out, HclValue::String("default".into()));
}

#[test]
fn lazy_try_first_success_wins() {
    let values = obj(&[("present", HclValue::String("hit".into()))]);
    let out = eval(r#"try(values.present, "default")"#, &values, &empty_object()).unwrap();
    assert_eq!(out, HclValue::String("hit".into()));
}

#[test]
fn lazy_try_nested_in_merge() {
    let out = eval(
        r#"merge({ a = "1" }, try(values.missing, { b = "2" }))"#,
        &empty_object(),
        &empty_object(),
    )
    .unwrap();
    let map = match out {
        HclValue::Object(m) => m,
        _ => panic!("expected object"),
    };
    assert_eq!(get(&map, "a"), Some(&HclValue::String("1".into())));
    assert_eq!(get(&map, "b"), Some(&HclValue::String("2".into())));
}

#[test]
fn lookup_returns_value_when_present() {
    let out = eval(
        r#"lookup({ a = "1" }, "a", "default")"#,
        &empty_object(),
        &empty_object(),
    )
    .unwrap();
    assert_eq!(out, HclValue::String("1".into()));
}

#[test]
fn lookup_returns_default_when_missing() {
    let out = eval(
        r#"lookup({ a = "1" }, "missing", "default")"#,
        &empty_object(),
        &empty_object(),
    )
    .unwrap();
    assert_eq!(out, HclValue::String("default".into()));
}

#[test]
fn tostring_converts_number() {
    let values = obj(&[("n", number(7))]);
    let out = eval("tostring(values.n)", &values, &empty_object()).unwrap();
    assert_eq!(out, HclValue::String("7".into()));
}

#[test]
fn missing_traversal_errors() {
    let err = eval("values.missing", &empty_object(), &empty_object()).unwrap_err();
    assert!(!err.is_empty(), "expected an error message");
}

#[test]
fn get_env_returns_default_when_unset() {
    let out = eval(
        r#"get_env("UNLIKELY_VAR_NAME_TG_DAG", "fallback")"#,
        &empty_object(),
        &empty_object(),
    )
    .unwrap();
    assert_eq!(out, HclValue::String("fallback".into()));
}

#[test]
fn evaluates_locals_in_order() {
    let body = parse_hcl(
        r#"
        locals {
          region = "eu"
          name   = "svc-${local.region}"
        }
    "#,
    )
    .unwrap();
    let locals = locals_in(&body, &empty_object()).unwrap();
    let map = match locals {
        HclValue::Object(m) => m,
        _ => panic!("expected object"),
    };
    assert_eq!(get(&map, "region"), Some(&HclValue::String("eu".into())));
    assert_eq!(get(&map, "name"), Some(&HclValue::String("svc-eu".into())));
}

#[test]
fn for_tuple_expression_doubles_each_element() {
    let out =
        eval("[for x in [1, 2, 3] : x * 2]", &empty_object(), &empty_object())
            .unwrap();
    assert_eq!(
        out,
        HclValue::Array(vec![
            number(2),
            number(4),
            number(6),
        ])
    );
}

#[test]
fn for_tuple_with_filter() {
    let out = eval(
        "[for x in [1, 2, 3, 4] : x if x > 2]",
        &empty_object(),
        &empty_object(),
    )
    .unwrap();
    assert_eq!(out, HclValue::Array(vec![number(3), number(4)]));
}

#[test]
fn for_object_over_map_yields_renamed_keys() {
    let customers = obj(&[
        ("alice", obj(&[("age", number(30))])),
        ("bob", obj(&[("age", number(25))])),
    ]);
    let locals = obj(&[("customers", customers)]);
    let out =
        eval(r#"{ for name, c in local.customers : name => c.age }"#, &empty_object(), &locals)
            .unwrap();
    let map = match out {
        HclValue::Object(m) => m,
        _ => panic!("expected object"),
    };
    assert_eq!(get(&map, "alice"), Some(&number(30)));
    assert_eq!(get(&map, "bob"), Some(&number(25)));
}

#[test]
fn for_object_with_interpolated_key() {
    let customers = obj(&[("alice", empty_object()), ("bob", empty_object())]);
    let locals = obj(&[("customers", customers)]);
    let out = eval(
        r#"{ for name, _ in local.customers : "user-${name}" => name }"#,
        &empty_object(),
        &locals,
    )
    .unwrap();
    let map = match out {
        HclValue::Object(m) => m,
        _ => panic!("expected object"),
    };
    assert_eq!(get(&map, "user-alice"), Some(&HclValue::String("alice".into())));
    assert_eq!(get(&map, "user-bob"), Some(&HclValue::String("bob".into())));
}

#[test]
fn for_tuple_keys_of_map() {
    let out = eval(
        r#"[for k, _ in { a = 1, b = 2 } : k]"#,
        &empty_object(),
        &empty_object(),
    )
    .unwrap();
    let array = match out {
        HclValue::Array(a) => a,
        _ => panic!("expected array"),
    };
    // Order may not be guaranteed: assert both keys are present.
    assert_eq!(array.len(), 2);
    assert!(array.contains(&HclValue::String("a".into())));
    assert!(array.contains(&HclValue::String("b".into())));
}

#[test]
fn for_body_calls_try_with_missing_values_field() {
    // Iterator var captures a value; nested `try(values.missing, x)`
    // must fall back to `x` instead of erroring on the missing field.
    let out = eval(
        r#"[for x in [1, 2, 3] : try(values.missing, x)]"#,
        &empty_object(),
        &empty_object(),
    )
    .unwrap();
    assert_eq!(
        out,
        HclValue::Array(vec![
            number(1),
            number(2),
            number(3),
        ])
    );
}

#[test]
fn for_body_with_try_falls_back_per_iteration() {
    // Mirrors the example `keycloak.organizations` pattern: each iteration
    // calls try() on a possibly-missing field of the iterator variable.
    let customers = obj(&[
        ("alice", obj(&[("description", HclValue::String("alice desc".into()))])),
        ("bob", empty_object()),
    ]);
    let locals = obj(&[("customers", customers)]);
    let out = eval(
        r#"{ for name, c in local.customers : name => try(c.description, "ACME customer: ${name}") }"#,
        &empty_object(),
        &locals,
    )
    .unwrap();
    let map = match out {
        HclValue::Object(m) => m,
        _ => panic!("expected object"),
    };
    assert_eq!(get(&map, "alice"), Some(&HclValue::String("alice desc".into())));
    assert_eq!(get(&map, "bob"), Some(&HclValue::String("ACME customer: bob".into())));
}

#[test]
fn for_expression_in_merge_via_local() {
    // Mirrors the example `keycloak.groups` pattern: a for-object is the
    // second argument to merge(), and references local.customers.
    let body = parse_hcl(
        r#"
        locals {
          customers = { alice = {}, bob = {} }
          groups    = merge({ static = "x" }, { for name, _ in local.customers : "p/${name}" => name })
        }
    "#,
    )
    .unwrap();
    let locals = locals_in(&body, &empty_object()).unwrap();
    let map = match locals {
        HclValue::Object(m) => m,
        _ => panic!("expected object"),
    };
    let groups = match get(&map, "groups").expect("groups present") {
        HclValue::Object(m) => m.clone(),
        _ => panic!("expected object"),
    };
    assert_eq!(get(&groups, "static"), Some(&HclValue::String("x".into())));
    assert_eq!(get(&groups, "p/alice"), Some(&HclValue::String("alice".into())));
    assert_eq!(get(&groups, "p/bob"), Some(&HclValue::String("bob".into())));
}

#[test]
fn evaluates_merge_with_locals_and_values() {
    let body = parse_hcl(
        r#"
        locals {
          common = { env = "prod" }
        }
    "#,
    )
    .unwrap();
    let values = obj(&[("region", HclValue::String("eu".into()))]);
    let locals = locals_in(&body, &values).unwrap();
    let out = eval(
        r#"merge({ a = "../base" }, local.common, { b = format("svc-%s", values.region) })"#,
        &values,
        &locals,
    )
    .unwrap();
    let map = match out {
        HclValue::Object(m) => m,
        _ => panic!("expected object"),
    };
    assert_eq!(get(&map, "a"), Some(&HclValue::String("../base".into())));
    assert_eq!(get(&map, "env"), Some(&HclValue::String("prod".into())));
    assert_eq!(get(&map, "b"), Some(&HclValue::String("svc-eu".into())));
}

// ============== Literal path resolution ==============

#[test]
fn test_resolve_literal_relative_path() {
    let project_dir = resolver_path("repo/live/prod/vpc");
    let ctx = ResolveContext::new(project_dir.clone());

    let result = resolve(&ctx, &PathExpr::Literal("../sg".to_string()));

    assert_eq!(result, Some(resolver_path("repo/live/prod/sg")));
}

#[test]
fn test_resolve_literal_parent_path() {
    let project_dir = resolver_path("repo/live/prod/vpc");
    let ctx = ResolveContext::new(project_dir);

    let result = resolve(&ctx, &PathExpr::Literal("../../staging/app".to_string()));

    assert_eq!(result, Some(resolver_path("repo/live/staging/app")));
}

// ============== find_in_parent_folders ==============

#[test]
fn test_resolve_find_in_parent_folders_default() {
    // Default: looks for terragrunt.hcl
    let project_dir = resolver_path("repo/live/prod/vpc");
    let ctx = ResolveContext::new(project_dir);

    let result = resolve(&ctx, &PathExpr::FindInParentFolders(None));

    // Should find live/terragrunt.hcl (first one going up)
    assert_eq!(result, Some(resolver_path("repo/live/terragrunt.hcl")));
}

#[test]
fn test_resolve_find_in_parent_folders_with_filename() {
    let project_dir = resolver_path("repo/live/prod/vpc");
    let ctx = ResolveContext::new(project_dir);

    let result = resolve(&ctx, &PathExpr::FindInParentFolders(Some("root.hcl".to_string())));

    // Should find repo/root.hcl
    assert_eq!(result, Some(resolver_path("repo/root.hcl")));
}

#[test]
fn test_resolve_find_in_parent_folders_region_file() {
    let project_dir = resolver_path("repo/live/prod/vpc");
    let ctx = ResolveContext::new(project_dir);

    let result = resolve(&ctx, &PathExpr::FindInParentFolders(Some("region.hcl".to_string())));

    // Should find repo/live/prod/region.hcl
    assert_eq!(result, Some(resolver_path("repo/live/prod/region.hcl")));
}

#[test]
fn test_resolve_find_in_parent_folders_not_found() {
    let project_dir = resolver_path("repo/live/prod/vpc");
    let ctx = ResolveContext::new(project_dir);

    let result = resolve(&ctx, &PathExpr::FindInParentFolders(Some("nonexistent.hcl".to_string())));

    assert_eq!(result, None);
}

// ============== get_repo_root ==============

#[test]
fn test_resolve_get_repo_root() {
    let project_dir = resolver_path("repo/live/prod/vpc");
    let ctx = ResolveContext::new(project_dir);

    let result = resolve(&ctx, &PathExpr::GetRepoRoot);

    assert_eq!(result, Some(resolver_path("repo")));
}

#[test]
fn test_resolve_get_repo_root_not_in_repo() {
    let project_dir = resolver_path("no_git_repo/project");
    let ctx = ResolveContext::new(project_dir);

    let result = resolve(&ctx, &PathExpr::GetRepoRoot);

    assert_eq!(result, None);
}

#[test]
fn test_repo_root_is_cached() {
    let project_dir = resolver_path("repo/live/prod/vpc");
    let ctx = ResolveContext::new(project_dir);

    // First call computes
    let first = repo_root_of(&ctx);
    // Second call should return same cached value
    let second = repo_root_of(&ctx);

    assert_eq!(first, second);
    assert!(first.is_some());
}

// ============== get_terragrunt_dir ==============

#[test]
fn test_resolve_get_terragrunt_dir() {
    let project_dir = resolver_path("repo/live/prod/vpc");
    let ctx = ResolveContext::new(project_dir.clone());

    let result = resolve(&ctx, &PathExpr::GetTerragruntDir);

    assert_eq!(result, Some(project_dir));
}

// ============== Unresolvable ==============

#[test]
fn test_resolve_unresolvable_returns_none() {
    let project_dir = resolver_path("repo/live/prod/vpc");
    let ctx = ResolveContext::new(project_dir);

    let result = resolve(&ctx, &PathExpr::Unresolvable {
        func: "get_env()".to_string(),
    });

    assert_eq!(result, None);
}

// ============== Standalone functions ==============

#[test]
fn test_find_in_parent_folders_standalone() {
    let from = resolver_path("repo/live/prod/vpc");

    let result = World::resolver().settle(|facts| find_in_parent_folders(facts, &from, "root.hcl"));

    assert_eq!(result, Some(resolver_path("repo/root.hcl")));
}

#[test]
fn test_find_repo_root_standalone() {
    let from = resolver_path("repo/live/prod/vpc");

    let result = World::resolver().settle(|facts| find_repo_root(facts, &from));

    assert_eq!(result, Some(resolver_path("repo")));
}

// ============== dirname() function ==============

#[test]
fn test_resolve_dirname_of_literal() {
    let project_dir = resolver_path("repo/live/prod/vpc");
    let ctx = ResolveContext::new(project_dir);

    let path_expr = PathExpr::Dirname(Box::new(PathExpr::Literal("/path/to/file.hcl".to_string())));

    let result = resolve(&ctx, &path_expr);

    assert!(result.is_some());
    let normalized = result.unwrap();
    assert_eq!(normalized, "/path/to");
}

#[test]
fn test_resolve_dirname_of_find_in_parent_folders() {
    let project_dir = resolver_path("repo/live/prod/vpc");
    let ctx = ResolveContext::new(project_dir);

    // dirname(find_in_parent_folders("root.hcl"))
    let path_expr = PathExpr::Dirname(Box::new(PathExpr::FindInParentFolders(Some("root.hcl".to_string()))));

    let result = resolve(&ctx, &path_expr);

    // find_in_parent_folders("root.hcl") resolves to repo/root.hcl
    // dirname of that is repo/
    assert_eq!(result, Some(resolver_path("repo")));
}

#[test]
fn test_resolve_dirname_unresolvable_returns_none() {
    let project_dir = resolver_path("repo/live/prod/vpc");
    let ctx = ResolveContext::new(project_dir);

    // dirname of something that can't be resolved should return None
    let path_expr = PathExpr::Dirname(Box::new(PathExpr::Unresolvable {
        func: "get_env()".to_string(),
    }));

    let result = resolve(&ctx, &path_expr);

    assert_eq!(result, None);
}

// ============== Interpolation tests ==============

#[test]
fn test_resolve_interpolation_simple() {
    let project_dir = resolver_path("repo/live/prod/vpc");
    let ctx = ResolveContext::new(project_dir.clone());

    // "${get_repo_root()}/modules/vpc"
    let path_expr =
        PathExpr::Interpolation(vec![PathExpr::GetRepoRoot, PathExpr::Literal("/modules/vpc".to_string())]);

    let result = resolve(&ctx, &path_expr);

    assert_eq!(result, Some(resolver_path("repo/modules/vpc")));
}

#[test]
fn test_resolve_interpolation_with_dirname() {
    let project_dir = resolver_path("repo_with_template/live/prod/app");
    let ctx = ResolveContext::new(project_dir);

    // "${dirname(find_in_parent_folders("root.hcl"))}/_envcommon/service.hcl"
    let path_expr = PathExpr::Interpolation(vec![
        PathExpr::Dirname(Box::new(PathExpr::FindInParentFolders(Some("root.hcl".to_string())))),
        PathExpr::Literal("/_envcommon/service.hcl".to_string()),
    ]);

    let result = resolve(&ctx, &path_expr);

    assert_eq!(result, Some(resolver_path("repo_with_template/_envcommon/service.hcl")));
}

#[test]
fn test_resolve_interpolation_complex() {
    let project_dir = resolver_path("repo/live/prod/vpc");
    let ctx = ResolveContext::new(project_dir.clone());

    // "${get_repo_root()}/config/${get_terragrunt_dir()}.yaml"
    // Should resolve to: repo/config/[project_dir].yaml
    let path_expr = PathExpr::Interpolation(vec![
        PathExpr::GetRepoRoot,
        PathExpr::Literal("/config/".to_string()),
        PathExpr::GetTerragruntDir,
        PathExpr::Literal(".yaml".to_string()),
    ]);

    let result = resolve(&ctx, &path_expr);

    // The result should contain the full interpolated path
    assert!(result.is_some());
    let resolved = result.unwrap();
    let normalized = resolved;
    assert!(normalized.contains("/config/"));
    assert!(normalized.ends_with(".yaml"));
}

#[test]
fn test_resolve_interpolation_with_unresolvable_returns_none() {
    let project_dir = resolver_path("repo/live/prod/vpc");
    let ctx = ResolveContext::new(project_dir);

    // If any part can't be resolved, the whole interpolation fails
    let path_expr = PathExpr::Interpolation(vec![
        PathExpr::GetRepoRoot,
        PathExpr::Unresolvable {
            func: "get_env()".to_string(),
        },
        PathExpr::Literal("/config.yaml".to_string()),
    ]);

    let result = resolve(&ctx, &path_expr);

    assert_eq!(result, None);
}

#[test]
fn test_resolve_interpolation_empty_returns_none() {
    let project_dir = resolver_path("repo/live/prod/vpc");
    let ctx = ResolveContext::new(project_dir);

    // Empty interpolation should return None
    let path_expr = PathExpr::Interpolation(vec![]);

    let result = resolve(&ctx, &path_expr);

    assert_eq!(result, None);
}

// ============== format() function tests ==============

#[test]
fn test_resolve_format_simple() {
    let project_dir = resolver_path("repo/live/prod/vpc");
    let ctx = ResolveContext::new(project_dir);

    // format("%s/alarm_topic", get_repo_root())
    let path_expr = PathExpr::Format {
        fmt: "%s/alarm_topic".to_string(),
        args: vec![PathExpr::GetRepoRoot],
    };

    let result = resolve(&ctx, &path_expr);

    assert_eq!(result, Some(resolver_path("repo/alarm_topic")));
}

#[test]
fn test_resolve_format_with_dirname() {
    let project_dir = resolver_path("repo/live/prod/vpc");
    let ctx = ResolveContext::new(project_dir);

    // format("%s/alarm_topic", dirname(find_in_parent_folders("root.hcl")))
    let path_expr = PathExpr::Format {
        fmt: "%s/alarm_topic".to_string(),
        args: vec![PathExpr::Dirname(Box::new(PathExpr::FindInParentFolders(Some("root.hcl".to_string()))))],
    };

    let result = resolve(&ctx, &path_expr);

    // dirname(find_in_parent_folders("root.hcl")) = dirname(repo/root.hcl) = repo
    assert_eq!(result, Some(resolver_path("repo/alarm_topic")));
}

#[test]
fn test_resolve_format_multiple_args() {
    let project_dir = resolver_path("repo/live/prod/vpc");
    let ctx = ResolveContext::new(project_dir.clone());

    // format("%s/modules/%s", get_repo_root(), get_terragrunt_dir())
    let path_expr = PathExpr::Format {
        fmt: "%s/modules/%s".to_string(),
        args: vec![PathExpr::GetRepoRoot, PathExpr::GetTerragruntDir],
    };

    let result = resolve(&ctx, &path_expr);

    assert!(result.is_some());
    let resolved = result.unwrap();
    let normalized = resolved;
    assert!(normalized.contains("/modules/"));
}

// ============== ValuesRef tests ==============

#[test]
fn test_resolve_values_ref_top_level_string() {
    let project_dir = resolver_path("repo/live/prod/vpc");
    let ctx = ResolveContext::new(project_dir)
        .with_values(obj(&[("dep", HclValue::String("../sg".to_string()))]));

    let result = resolve(&ctx, &PathExpr::ValuesRef(vec!["dep".to_string()]));

    assert_eq!(result, Some(resolver_path("repo/live/prod/sg")));
}

#[test]
fn test_resolve_values_ref_nested_keys() {
    let project_dir = resolver_path("repo/live/prod/vpc");
    let inner = obj(&[("dep", HclValue::String("../sg".to_string()))]);
    let ctx = ResolveContext::new(project_dir).with_values(obj(&[("svc", inner)]));

    let result = resolve(&ctx, &PathExpr::ValuesRef(vec!["svc".to_string(), "dep".to_string()]));

    assert_eq!(result, Some(resolver_path("repo/live/prod/sg")));
}

#[test]
fn test_resolve_values_ref_missing_key_returns_none() {
    let project_dir = resolver_path("repo/live/prod/vpc");
    let ctx = ResolveContext::new(project_dir)
        .with_values(obj(&[("other", HclValue::String("x".to_string()))]));

    let result = resolve(&ctx, &PathExpr::ValuesRef(vec!["missing".to_string()]));

    assert_eq!(result, None);
}

#[test]
fn test_resolve_values_ref_non_string_terminal_returns_none() {
    let project_dir = resolver_path("repo/live/prod/vpc");
    let ctx = ResolveContext::new(project_dir)
        .with_values(obj(&[("n", number(42))]));

    let result = resolve(&ctx, &PathExpr::ValuesRef(vec!["n".to_string()]));

    assert_eq!(result, None);
}

#[test]
fn test_resolve_values_ref_without_bound_values_returns_none() {
    let project_dir = resolver_path("repo/live/prod/vpc");
    let ctx = ResolveContext::new(project_dir);

    let result = resolve(&ctx, &PathExpr::ValuesRef(vec!["dep".to_string()]));

    assert_eq!(result, None);
}

// ============== HclExpr resolution ==============

#[test]
fn test_resolve_hcl_expr_with_get_repo_root() {
    let project_dir = resolver_path("repo/live/prod/vpc");
    let ctx = ResolveContext::new(project_dir);

    // ${get_repo_root()}/modules/vpc as a raw HCL expression.
    let expr = parse_expr(r#""${get_repo_root()}/modules/vpc""#);
    let path_expr = PathExpr::HclExpr(Box::new(expr));

    let result = resolve(&ctx, &path_expr);
    assert_eq!(result, Some(resolver_path("repo/modules/vpc")));
}

#[test]
fn test_resolve_hcl_expr_with_values_ref_via_eval() {
    // `values.dep` evaluated through the HCL evaluator (not via the
    // dedicated ValuesRef variant) still resolves correctly.
    let project_dir = resolver_path("repo/live/prod/vpc");
    let ctx = ResolveContext::new(project_dir)
        .with_values(obj(&[("dep", HclValue::String("../sg".to_string()))]));

    let expr = parse_expr("values.dep");
    let path_expr = PathExpr::HclExpr(Box::new(expr));

    let result = resolve(&ctx, &path_expr);
    assert_eq!(result, Some(resolver_path("repo/live/prod/sg")));
}

#[test]
fn test_resolve_hcl_expr_strict_propagates_eval_error() {
    let project_dir = resolver_path("repo/live/prod/vpc");
    let ctx = ResolveContext::new(project_dir)
        .with_options(ResolveOptions {
            strict: true,
            ..Default::default()
        });

    // `values.missing` will raise an HCL eval error since `values` has no
    // such key.
    let expr = parse_expr("values.missing");
    let path_expr = PathExpr::HclExpr(Box::new(expr));

    let (result, events) = World::resolver().settle(|facts| ctx.resolve(facts, &path_expr));
    assert_eq!(result, None);
    assert_eq!(summarize(&events).source_path_failures, 1);
}

#[test]
fn test_resolve_format_with_unresolvable_returns_none() {
    let project_dir = resolver_path("repo/live/prod/vpc");
    let ctx = ResolveContext::new(project_dir);

    // If any argument can't be resolved, the whole format fails
    let path_expr = PathExpr::Format {
        fmt: "%s/alarm_topic".to_string(),
        args: vec![PathExpr::Unresolvable {
            func: "get_env()".to_string(),
        }],
    };

    let result = resolve(&ctx, &path_expr);

    assert_eq!(result, None);
}

// ============== Processing ==============

#[test]
fn test_process_empty_list() {
    let result = process_projects(&vec![]);
    assert!(result.is_empty());
}

#[test]
fn test_process_single_project() {
    let paths = vec!["/repo/live/prod/vpc".to_string()];
    let results = process_projects(&paths);

    assert_eq!(results.len(), 1);
    match &results[0] {
        ProjectResult::Processed(project) => {
            assert_eq!(project.dir, "/repo/live/prod/vpc".to_string());
            // Name should skip "live" and "repo" prefixes
            assert_eq!(project.name, "prod_vpc");
        }
        ProjectResult::Failed { .. } => panic!("Expected Ok result"),
    }
}

#[test]
fn test_process_multiple_projects_parallel() {
    let paths: Vec<String> = (0..100)
        .map(|i| format!("/repo/live/env{}/app", i))
        .collect();

    let results = process_projects(&paths);

    assert_eq!(results.len(), 100);
    // All should succeed (placeholder implementation)
    assert!(results.iter().all(|r| matches!(r, ProjectResult::Processed(_))));
}

#[test]
fn test_derive_project_name() {
    let cases = [
        ("/repo/live/prod/vpc", "prod_vpc"),
        ("/repo/terragrunt/staging/app", "staging_app"),
        ("/repo/prod/vpc", "prod_vpc"),
        ("/repo/vpc", "vpc"),
        ("/projects/infra/staging/database", "staging_database"),
        ("/infrastructure/prod/network", "prod_network"),
        ("/some/path/without/skip/prefix", "some_path_without_skip_prefix"),
    ];
    for (input_path, expected_name) in cases {
        assert_eq!(derive_project_name(input_path), expected_name);
    }
}

// ============== Recursive config loading tests ==============

#[test]
fn test_process_with_read_terragrunt_config() {
    let project_dir = processor_path("with_read_terragrunt_config/app");
    let mut world = World::processor();

    let project =
        world.process(&project_dir).expect("should process successfully");

    // Should have dependencies from both app/terragrunt.hcl AND common.hcl
    // app has: dependency "rds"
    // common.hcl has: dependency "shared_vpc"
    assert_eq!(project.project_dependencies.len(), 2);
    assert!(
        project
            .project_dependencies
            .iter()
            .any(|d| d.contains("rds"))
    );
    assert!(
        project
            .project_dependencies
            .iter()
            .any(|d| d.contains("shared_vpc"))
    );

    // Watch files should include:
    // - common.hcl (the read_terragrunt_config target)
    // - data/common.yaml (file() in common.hcl)
    assert!(
        project
            .watch_files
            .iter()
            .any(|f| f.ends_with("common.hcl"))
    );
    assert!(
        project
            .watch_files
            .iter()
            .any(|f| f.ends_with("common.yaml"))
    );
}

#[test]
fn test_process_with_include_loads_deps() {
    let project_dir = processor_path("with_include_deps/live/prod/app");
    let mut world = World::processor();

    let project =
        world.process(&project_dir).expect("should process successfully");

    // Should have dependency from app/terragrunt.hcl
    assert!(
        project
            .project_dependencies
            .iter()
            .any(|d| d.contains("vpc"))
    );

    // Watch files should include:
    // - root.hcl (the include target)
    // - config.yaml (file() in root.hcl)
    assert!(project.watch_files.iter().any(|f| f.ends_with("root.hcl")));
    assert!(
        project
            .watch_files
            .iter()
            .any(|f| f.ends_with("config.yaml"))
    );
}

#[test]
fn test_process_with_nested_read_config() {
    let project_dir = processor_path("with_nested_read_config/app");
    let mut world = World::processor();

    let project =
        world.process(&project_dir).expect("should process successfully");

    // app → env.hcl → base.hcl
    // Should collect watch files from all levels
    assert!(project.watch_files.iter().any(|f| f.ends_with("env.hcl")));
    assert!(project.watch_files.iter().any(|f| f.ends_with("base.hcl")));
    assert!(project.watch_files.iter().any(|f| f.ends_with("env.yaml")));
    assert!(project.watch_files.iter().any(|f| f.ends_with("base.yaml")));
}

#[test]
fn test_process_with_circular_reference_does_not_loop() {
    let project_dir = processor_path("with_circular_reference/app");
    let mut world = World::processor();

    // Should complete without infinite loop
    // Circular references should be detected and skipped
    let result = world.process(&project_dir);

    // Should succeed (not hang or stack overflow)
    assert!(result.is_ok());
}

#[test]
fn test_process_deduplicates_watch_files() {
    // If the same file is referenced multiple times, it should appear once
    let project_dir = processor_path("with_read_terragrunt_config/app");
    let mut world = World::processor();

    let project =
        world.process(&project_dir).expect("should process successfully");

    // Check no duplicates in watch_files
    let mut seen = std::collections::HashSet::new();
    for file in &project.watch_files {
        assert!(seen.insert(file.clone()), "Duplicate watch file: {}", file);
    }
}

// ============== ParseCache tests ==============

#[test]
fn test_cache_reuses_parsed_config() {
    let mut world = World::processor();
    let project_dir = processor_path("with_read_terragrunt_config/app");

    // Process twice
    let project1 =
        world.process(&project_dir).expect("first processing failed");
    let project2 =
        world.process(&project_dir).expect("second processing failed");

    // Both should have same results
    assert_eq!(project1.project_dependencies, project2.project_dependencies);
    assert_eq!(project1.watch_files, project2.watch_files);

    // Cache should have entries (common.hcl and app/terragrunt.hcl parsed, reused)
    let (entries, total_deps) = world.cache.stats();
    assert!(entries > 0, "Cache should have entries");

    // Log cache stats for demonstration
    println!(
        "Cache stats after processing twice: {} files cached, {} total dependencies",
        entries, total_deps
    );
}

#[test]
fn test_parallel_processing_shares_cache() {
    let mut world = World::processor();

    // Two projects that might share common files
    let projects = vec![
        processor_path("with_read_terragrunt_config/app"),
        processor_path("with_nested_read_config/app"),
    ];

    let results = world.settle(|facts| process_all_projects(facts, &projects, DependencyStyle::Name));

    // All should succeed
    assert_eq!(results.len(), 2);
    assert!(
        results.iter().all(|r| matches!(r, ProjectResult::Processed(_))),
        "All projects should process successfully"
    );

    // Cache should have entries from both projects
    let (entries, total_deps) = world.cache.stats();
    assert!(entries > 0, "Cache should have entries");

    // Log cache stats for demonstration
    println!(
        "Cache stats after parallel processing: {} files cached, {} total dependencies",
        entries, total_deps
    );
}

#[test]
fn test_cache_stats() {
    let mut world = World::processor();
    let project_dir = processor_path("with_read_terragrunt_config/app");

    // Initially empty
    let (entries, total_deps) = world.cache.stats();
    assert_eq!(entries, 0);
    assert_eq!(total_deps, 0);

    // After processing, should have entries
    let _ = world.process(&project_dir);

    let (entries_after, _total_deps_after) = world.cache.stats();
    assert!(
        entries_after > 0,
        "Cache should have entries after processing"
    );
}

#[test]
fn test_cache_with_circular_reference() {
    // Cache should not break circular reference detection
    let mut world = World::processor();
    let project_dir = processor_path("with_circular_reference/app");

    // Should complete without infinite loop even with cache
    let result = world.process(&project_dir);
    assert!(
        result.is_ok(),
        "Should handle circular references with cache"
    );
}

#[test]
fn test_deps_resolved_relative_to_source_file() {
    // This test verifies that dependencies from included files are resolved
    // relative to the included file's directory, not the project directory.
    //
    // Structure:
    // with_read_terragrunt_config/
    //   app/
    //     terragrunt.hcl    -> reads ../common.hcl
    //   common.hcl          -> dependency "../shared/vpc"
    //
    // The dependency "../shared/vpc" in common.hcl should resolve to
    // "<root>/shared/vpc", NOT "app/../shared/vpc".
    //
    // Before fix: would resolve relative to app/ (wrong)
    // After fix: resolves relative to common.hcl's directory (correct)

    let mut world = World::processor();
    let project_dir = processor_path("with_read_terragrunt_config/app");

    let project =
        world.process(&project_dir).expect("should process successfully");

    // Verify dependency from common.hcl is present
    assert!(
        project
            .project_dependencies
            .iter()
            .any(|d| d.contains("shared_vpc")),
        "Should have shared_vpc dependency from common.hcl. Got: {:?}",
        project.project_dependencies
    );

    // Verify dependency from app/terragrunt.hcl is present
    assert!(
        project
            .project_dependencies
            .iter()
            .any(|d| d.contains("rds")),
        "Should have rds dependency from app/terragrunt.hcl. Got: {:?}",
        project.project_dependencies
    );

    // Verify watch file from common.hcl is present
    assert!(
        project
            .watch_files
            .iter()
            .any(|f| f.ends_with("common.yaml")),
        "Should have common.yaml watch file from common.hcl. Got: {:?}",
        project.watch_files
    );

    // Both dependencies should be resolved correctly
    assert_eq!(
        project.project_dependencies.len(),
        2,
        "Should have exactly 2 dependencies"
    );
}

// ============== Stack files ==============

#[test]
fn test_parse_stack_file_basic() {
    let path = stack_path("with_shared_module/live/staging/auth/terragrunt.stack.hcl");
    let parsed = World::stacks().stack(&path).expect("should parse");
    assert_eq!(parsed.units.len(), 2);
    assert!(parsed.units.iter().any(|u| u.path == "azure/alpha"));
    assert!(parsed.units.iter().any(|u| u.path == "saml/beta"));
}

#[test]
fn test_parse_stack_file_captures_values_expr() {
    let path = stack_path("with_shared_module/live/staging/auth/terragrunt.stack.hcl");
    let parsed = World::stacks().stack(&path).expect("should parse");
    assert!(parsed.units.iter().all(|u| u.values_expr.is_some()), "every unit should carry its values expr");
}

#[test]
fn test_expand_with_merge_format_locals_resolves_deps() {
    let mut world = World::stacks();
    let stack_file = stack_path("values_merge_format/live/staging/svc/terragrunt.stack.hcl");
    let expanded = world.expand(vec![stack_file]);

    assert_eq!(expanded.synthetic_projects.len(), 1);
    let project = &expanded.synthetic_projects[0];

    let base = stack_path("values_merge_format/live/staging/svc/base");
    let svc_eu = stack_path("values_merge_format/live/staging/svc/svc-eu");

    assert!(
        project.project_dependencies.iter().any(|d| *d == base),
        "expected dependency on base ({}), got {:?}",
        base,
        project.project_dependencies
    );
    assert!(
        project.project_dependencies.iter().any(|d| *d == svc_eu),
        "expected dependency on svc-eu ({}), got {:?}",
        svc_eu,
        project.project_dependencies
    );

    // Bound values should include the merged `env` key from locals as well.
    let unit_dir = stack_path("values_merge_format/live/staging/svc/.terragrunt-stack/main");
    let binding = binding_of(&expanded, &unit_dir).expect("stack binding should be kept");
    let HclValue::Object(values) = &binding.values else {
        panic!("expected object values, got {:?}", binding.values);
    };
    assert_eq!(get(values, "env"), Some(&HclValue::String("prod".to_string())));
}

#[test]
fn test_nearest_stack_ancestor_simple() {
    let path = "/root/live/svc/.terragrunt-stack/main".to_string();
    let (dir, rel) = nearest_stack_ancestor(&path).unwrap();
    assert_eq!(dir, "/root/live/svc".to_string());
    assert_eq!(rel, "main");
}

#[test]
fn test_nearest_stack_ancestor_nested_picks_innermost() {
    let path = "/root/live/svc/.terragrunt-stack/azure/.terragrunt-stack/svc".to_string();
    let (dir, rel) = nearest_stack_ancestor(&path).unwrap();
    assert_eq!(dir, "/root/live/svc/.terragrunt-stack/azure".to_string());
    assert_eq!(rel, "svc");
}

#[test]
fn test_expand_with_nested_stacks_resolves_chain() {
    let mut world = World::stacks();
    let outer = stack_path("values_nested_stacks/live/svc/terragrunt.stack.hcl");
    let inner = stack_path("values_nested_stacks/live/svc/.terragrunt-stack/azure/terragrunt.stack.hcl");

    let expanded = world.expand(vec![outer, inner]);

    let azure_base = stack_path("values_nested_stacks/live/svc/.terragrunt-stack/azure/.terragrunt-stack/azure_base");

    let svc_unit = expanded
        .synthetic_projects
        .iter()
        .find(|p| p.dir.ends_with(".terragrunt-stack/azure/.terragrunt-stack/svc"))
        .expect("inner svc unit must be in synthetic projects");

    assert!(
        svc_unit.project_dependencies.iter().any(|d| *d == azure_base),
        "expected inner svc unit to depend on azure_base ({}), got {:?}",
        azure_base,
        svc_unit.project_dependencies
    );
}

#[test]
fn test_expand_with_three_level_chain_resolves_dep() {
    // Three nested stack files; the inner unit's `values.dep` is computed
    // from a value introduced two layers up (`values.cloud`/`values.env`
    // at the outermost stack, then `values.cluster` at the middle layer).
    let mut world = World::stacks();
    let outer = stack_path("values_three_levels/live/terragrunt.stack.hcl");
    let mid = stack_path("values_three_levels/live/.terragrunt-stack/azure/east-us/terragrunt.stack.hcl");
    let inner = stack_path(
        "values_three_levels/live/.terragrunt-stack/azure/east-us/.terragrunt-stack/k8s/terragrunt.stack.hcl",
    );

    let expanded = world.expand(vec![outer, mid, inner]);

    let target = stack_path(
        "values_three_levels/live/.terragrunt-stack/azure/east-us/.terragrunt-stack/k8s/.terragrunt-stack/azure-prod_base",
    );

    let svc = expanded
        .synthetic_projects
        .iter()
        .find(|p| p.dir.ends_with("/svc"))
        .expect("inner svc unit must be present");

    assert!(
        svc.project_dependencies.iter().any(|d| *d == target),
        "expected svc to depend on azure-prod_base ({}), got {:?}",
        target,
        svc.project_dependencies
    );
}

#[test]
fn test_expand_with_unresolvable_values_warns_and_skips() {
    let mut world = World::stacks();
    let stack_file = stack_path("values_unresolvable/live/svc/terragrunt.stack.hcl");
    let expanded = world.expand(vec![stack_file]);

    assert_eq!(expanded.synthetic_projects.len(), 1);
    let project = &expanded.synthetic_projects[0];
    assert!(
        project.project_dependencies.is_empty(),
        "unresolvable values should yield no dependency edges, got {:?}",
        project.project_dependencies
    );
}

#[test]
fn test_expand_with_lazy_try_resolves_dep() {
    // `try(values.optional_extras, ["fallback"])` must not abort
    // evaluation when `values.optional_extras` is undefined.
    let mut world = World::stacks();
    let stack_file = stack_path("values_lazy_try/live/svc/terragrunt.stack.hcl");
    let expanded = world.expand(vec![stack_file]);

    assert_eq!(expanded.synthetic_projects.len(), 1);
    let project = &expanded.synthetic_projects[0];

    let base = stack_path("values_lazy_try/live/svc/.terragrunt-stack/base");
    assert!(
        project.project_dependencies.iter().any(|d| *d == base),
        "expected dependency on base ({}), got {:?}",
        base,
        project.project_dependencies
    );
}

#[test]
fn test_expand_with_bare_local_resolves_dep() {
    // `all_locals = local` should bind the full locals object so
    // downstream `values.all_locals.shared_dep` traversal works.
    let mut world = World::stacks();
    let stack_file = stack_path("values_bare_local/live/svc/terragrunt.stack.hcl");
    let expanded = world.expand(vec![stack_file]);

    assert_eq!(expanded.synthetic_projects.len(), 1);
    let project = &expanded.synthetic_projects[0];

    let base = stack_path("values_bare_local/live/svc/.terragrunt-stack/base");
    assert!(
        project.project_dependencies.iter().any(|d| *d == base),
        "expected dependency on base ({}), got {:?}",
        base,
        project.project_dependencies
    );
}

#[test]
fn test_expand_with_for_expression_resolves_dep() {
    // `local.groups = { for name, _ in local.customers : ... => name }`
    // should evaluate so the unit's `values = { groups = local.groups }`
    // binds successfully and the `dep` edge resolves.
    let mut world = World::stacks();
    let stack_file = stack_path("values_for_expression/live/svc/terragrunt.stack.hcl");
    let expanded = world.expand(vec![stack_file]);

    assert_eq!(expanded.synthetic_projects.len(), 1);
    let project = &expanded.synthetic_projects[0];

    let base = stack_path("values_for_expression/live/svc/.terragrunt-stack/base");
    assert!(
        project.project_dependencies.iter().any(|d| *d == base),
        "expected dependency on base ({}), got {:?}",
        base,
        project.project_dependencies
    );

    // The synthesized for-object should land in the cached binding.
    let unit_dir = stack_path("values_for_expression/live/svc/.terragrunt-stack/svc");
    let binding = binding_of(&expanded, &unit_dir).expect("stack binding should be kept");
    let HclValue::Object(values) = &binding.values else {
        panic!("expected object values, got {:?}", binding.values);
    };
    let HclValue::Object(groups) = get(values, "groups").expect("groups bound") else {
        panic!("expected groups to be an object");
    };
    assert_eq!(get(groups, "team/alice"), Some(&HclValue::String("alice".into())));
    assert_eq!(get(groups, "team/bob"), Some(&HclValue::String("bob".into())));
}

#[test]
fn test_expand_source_with_local_resolves() {
    let mut world = World::stacks();
    let fixture_root = stack_path("source_with_get_repo_root");

    let stack_file = join(&fixture_root, "live/terragrunt.stack.hcl");
    let expanded = world.expand(vec![stack_file]);

    assert_eq!(
        expanded.synthetic_projects.len(),
        1,
        "expected 1 synthetic unit, got: {:?}",
        expanded.synthetic_projects.iter().map(|p| &p.dir).collect::<Vec<_>>()
    );
    let unit = &expanded.synthetic_projects[0];
    assert!(
        unit.dir.ends_with("/.terragrunt-stack/unseal"),
        "synthetic unit dir mismatch: {}",
        unit.dir
    );
    // Soft failures must not have fired for this fully resolved fixture.
    assert!(
        expanded.eval_report.is_empty(),
        "expected no eval failures, got: {:?}",
        expanded.eval_report
    );
}

#[test]
fn test_expand_nested_stack_source_uses_outer_values() {
    // An outer stack passes `values = { module = "gcp" }` into its inner
    // stack, whose `source` then interpolates `${values.module}`. The
    // resolver must thread the outer values through to the inner source.
    let mut world = World::new();
    let root = "/work".to_string();

    world.make_dir(&join(&root, "modules/gcp"));
    world.write(
        &join(&root, "terragrunt.stack.hcl"),
        r#"
        stack "inner" {
          source = "./inner"
          path   = "inner"
          values = { module = "gcp" }
        }
        "#,
    );
    world.make_dir(&join(&root, ".terragrunt-stack/inner"));
    world.write(
        &join(&root, ".terragrunt-stack/inner/terragrunt.stack.hcl"),
        r#"
        unit "leaf" {
          source = "../../../modules/${values.module}"
          path   = "leaf"
        }
        "#,
    );

    let outer = join(&root, "terragrunt.stack.hcl");
    let inner = join(&root, ".terragrunt-stack/inner/terragrunt.stack.hcl");
    let expanded = world.expand(vec![outer, inner]);

    let leaf = expanded
        .synthetic_projects
        .iter()
        .find(|p| p.dir.ends_with("/leaf"))
        .expect("leaf unit must exist");
    assert!(
        leaf.dir.contains(".terragrunt-stack/inner/.terragrunt-stack/leaf"),
        "unexpected leaf dir: {}",
        leaf.dir
    );
}

#[test]
fn test_expand_source_with_local_referencing_unresolvable_skipped() {
    // Build a stack file whose `source = local.missing` cannot resolve.
    let mut world = World::new();
    let stack_file = "/work/terragrunt.stack.hcl".to_string();
    world.write(
        &stack_file,
        r#"
        unit "broken" {
          source = local.missing
          path   = "broken"
        }
        "#,
    );

    let expanded = world.expand(vec![stack_file]);

    // The unit must be skipped (no synthetic project) and the failure
    // must be recorded exactly once (the resolver helper records it; the
    // unit loop must not double-count).
    assert!(expanded.synthetic_projects.is_empty());
    assert_eq!(
        expanded.eval_report.source_path_failures, 1,
        "expected exactly one source_path_failure, got: {:?}",
        expanded.eval_report
    );
}

#[test]
fn test_expand_with_literal_values_resolves_dep() {
    let mut world = World::stacks();
    let stack_file = stack_path("values_simple_dep/live/staging/svc/terragrunt.stack.hcl");
    let expanded = world.expand(vec![stack_file]);

    assert_eq!(expanded.synthetic_projects.len(), 1);
    let project = &expanded.synthetic_projects[0];

    // The dependency should resolve to the sibling directory via values.dep.
    let sibling = stack_path("values_simple_dep/live/staging/svc/sibling");
    assert!(
        project.project_dependencies.iter().any(|d| *d == sibling),
        "expected dependency on {}, got {:?}",
        sibling,
        project.project_dependencies
    );

    // Stack binding should be cached for the synthetic unit.
    let unit_dir = stack_path("values_simple_dep/live/staging/svc/.terragrunt-stack/main");
    assert!(
        binding_of(&expanded, &unit_dir).is_some(),
        "stack binding should be cached for {}",
        unit_dir
    );
}

// ============== Path D: recursive stack-source expansion ==============

#[test]
fn test_recurse_into_stack_source_emits_leaves() {
    let mut world = World::new();
    let root = "/work".to_string();

    world.write_stack(
        &root,
        r#"
        stack "x" {
          source = "./inner"
          path   = "x"
        }
        "#,
    );
    let inner_dir = join(&root, "inner");
    world.write_stack(
        &inner_dir,
        r#"
        unit "leaf" {
          source = "../../module"
          path   = "leaf"
        }
        "#,
    );
    world.write_terragrunt(&join(&root, "module"));

    let top = join(&root, "terragrunt.stack.hcl");
    let expanded = world.expand(vec![top]);

    assert!(expanded.synthetic_projects.iter().any(|p| p.dir.ends_with("/.terragrunt-stack/leaf")));
    assert!(
        !expanded.synthetic_projects.iter().any(|p| p.dir.ends_with("/.terragrunt-stack/x")),
        "parent shell should have been dropped after successful recursion"
    );
}

#[test]
fn test_recurse_drops_shell_when_children_emitted() {
    let mut world = World::new();
    let root = "/work".to_string();

    world.write_stack(
        &root,
        r#"
        stack "outer" {
          source = "./outer"
          path   = "outer"
        }
        "#,
    );
    world.write_stack(
        &join(&root, "outer"),
        r#"
        unit "a" {
          source = "../../mod_a"
          path   = "a"
        }
        unit "b" {
          source = "../../mod_b"
          path   = "b"
        }
        "#,
    );
    world.write_terragrunt(&join(&root, "mod_a"));
    world.write_terragrunt(&join(&root, "mod_b"));

    let top = join(&root, "terragrunt.stack.hcl");
    let expanded = world.expand(vec![top]);

    let dirs: Vec<&str> = expanded.synthetic_projects.iter().map(|p| p.dir.as_str()).collect();
    assert!(!dirs.iter().any(|d| d.ends_with("/.terragrunt-stack/outer")), "outer shell must be dropped: {:?}", dirs);
    assert_eq!(expanded.synthetic_projects.len(), 2, "exactly the two leaves should remain: {:?}", dirs);
}

#[test]
fn test_recurse_keeps_shell_when_source_missing_stack_file() {
    let mut world = World::new();
    let root = "/work".to_string();

    world.write_stack(
        &root,
        r#"
        stack "only_tg" {
          source = "./only_tg"
          path   = "only_tg"
        }
        "#,
    );
    // Source dir exists with terragrunt.hcl but NO terragrunt.stack.hcl.
    world.write_terragrunt(&join(&root, "only_tg"));

    let top = join(&root, "terragrunt.stack.hcl");
    let expanded = world.expand(vec![top]);

    assert_eq!(expanded.eval_report.missing_child_stack, 1, "missing child stack should be reported");
    assert!(
        expanded.synthetic_projects.iter().any(|p| p.dir.ends_with("/.terragrunt-stack/only_tg")),
        "parent shell must be kept when recursion can't find a child stack file"
    );
}

#[test]
fn test_recurse_skips_cycle() {
    let mut world = World::new();
    let root = "/work".to_string();

    // a.source = b, b.source = a — recursion should short-circuit on the
    // second visit. Each stack file also declares its own leaf so that the
    // first arm of the cycle still emits something.
    world.write_stack(
        &join(&root, "a"),
        r#"
        stack "b" {
          source = "../b"
          path   = "b"
        }
        unit "leaf_a" {
          source = "../../mod_a"
          path   = "leaf_a"
        }
        "#,
    );
    world.write_stack(
        &join(&root, "b"),
        r#"
        stack "a" {
          source = "../a"
          path   = "a"
        }
        unit "leaf_b" {
          source = "../../mod_b"
          path   = "leaf_b"
        }
        "#,
    );
    world.write_terragrunt(&join(&root, "mod_a"));
    world.write_terragrunt(&join(&root, "mod_b"));

    let top = join(&root, "a/terragrunt.stack.hcl");
    let expanded = world.expand(vec![top]);

    assert!(expanded.eval_report.cycle_skipped >= 1, "expected at least one cycle_skipped, got: {:?}", expanded.eval_report);
}

#[test]
fn test_recurse_skips_remote_source() {
    let mut world = World::new();
    let root = "/work".to_string();

    world.write_stack(
        &root,
        r#"
        stack "remote" {
          source = "git::ssh://example.com/foo.git"
          path   = "remote"
        }
        "#,
    );

    let top = join(&root, "terragrunt.stack.hcl");
    let expanded = world.expand(vec![top]);

    assert_eq!(expanded.eval_report.remote_sources_skipped, 1, "remote sources should be counted");
    assert!(expanded.synthetic_projects.is_empty(), "no leaves expected for a remote stack source");
}

#[test]
fn test_recurse_inherits_parent_values() {
    // Parent passes `values = { module = "../modules/eu" }` into the child
    // stack; the child unit's `source = values.module` then resolves
    // against the child stack's config_dir. The bound values must arrive
    // intact through the recursion path.
    let mut world = World::new();
    let root = "/work".to_string();

    world.write_stack(
        &root,
        r#"
        stack "child" {
          source = "./child"
          path   = "child"
          values = { module = "../modules/eu" }
        }
        "#,
    );
    world.write_stack(
        &join(&root, "child"),
        r#"
        unit "x" {
          source = values.module
          path   = "x"
        }
        "#,
    );
    world.write_terragrunt(&join(&root, "modules/eu"));

    let top = join(&root, "terragrunt.stack.hcl");
    let expanded = world.expand(vec![top]);

    let leaf = expanded
        .synthetic_projects
        .iter()
        .find(|p| p.dir.ends_with("/.terragrunt-stack/x"))
        .unwrap_or_else(|| panic!("expected leaf 'x'; got: {:?}", expanded.synthetic_projects.iter().map(|p| &p.dir).collect::<Vec<_>>()));
    // The bound source module (resolved relative to the child stack dir)
    // should appear in the unit's watch_files glob.
    assert!(
        leaf.watch_files.iter().any(|f| f.contains("/modules/eu")),
        "expected source to resolve under modules/eu; watch_files: {:?}",
        leaf.watch_files
    );
}

#[test]
fn test_recurse_dedup_with_materialized_tree() {
    let mut world = World::new();
    let root = "/work".to_string();

    world.write_stack(
        &join(&root, "live"),
        r#"
        stack "consul" {
          source = "../consul_src"
          path   = "consul"
        }
        "#,
    );
    world.write_stack(
        &join(&root, "consul_src"),
        r#"
        unit "agent" {
          source = "../modules/agent"
          path   = "agent"
        }
        "#,
    );
    world.write_terragrunt(&join(&root, "modules/agent"));

    // Also materialize the inner stack file under .terragrunt-stack/ —
    // this is what `terragrunt stack generate` produces.
    world.write_stack(
        &join(&root, "live/.terragrunt-stack/consul"),
        r#"
        unit "agent" {
          source = "../../../modules/agent"
          path   = "agent"
        }
        "#,
    );

    let top = join(&root, "live/terragrunt.stack.hcl");
    let materialized = join(&root, "live/.terragrunt-stack/consul/terragrunt.stack.hcl");
    let expanded = world.expand(vec![top, materialized]);

    let agent_count = expanded.synthetic_projects.iter().filter(|p| p.dir.ends_with("/agent")).count();
    assert_eq!(agent_count, 1, "leaf 'agent' should appear exactly once; got: {:?}", expanded.synthetic_projects.iter().map(|p| &p.dir).collect::<Vec<_>>());
}

#[test]
fn test_mixed_inline_unit_and_stack_at_top() {
    let mut world = World::new();
    let root = "/work".to_string();

    world.write_stack(
        &root,
        r#"
        unit "inline" {
          source = "./mod_inline"
          path   = "inline"
        }
        stack "outer" {
          source = "./outer"
          path   = "outer"
        }
        "#,
    );
    world.write_stack(
        &join(&root, "outer"),
        r#"
        unit "child" {
          source = "../../mod_child"
          path   = "child"
        }
        "#,
    );
    world.write_terragrunt(&join(&root, "mod_inline"));
    world.write_terragrunt(&join(&root, "mod_child"));

    let top = join(&root, "terragrunt.stack.hcl");
    let expanded = world.expand(vec![top]);

    let dirs: Vec<&str> = expanded.synthetic_projects.iter().map(|p| p.dir.as_str()).collect();
    assert!(dirs.iter().any(|d| d.ends_with("/.terragrunt-stack/inline")), "inline unit must be emitted: {:?}", dirs);
    assert!(dirs.iter().any(|d| d.ends_with("/.terragrunt-stack/child")), "recursed child must be emitted: {:?}", dirs);
    assert!(!dirs.iter().any(|d| d.ends_with("/.terragrunt-stack/outer")), "outer shell must be dropped: {:?}", dirs);
}

#[test]
fn test_recurse_strict_escalates_missing_source() {
    let mut world = World::new();
    let root = "/work".to_string();

    world.write_stack(
        &root,
        r#"
        stack "nope" {
          source = "./nope"
          path   = "nope"
        }
        "#,
    );
    // Note: no `./nope` dir created — the resolver returns the (still
    // normalized) path so canonicalization is best-effort; the
    // child stack file does not exist, increment `missing_child_stack`.

    let top = join(&root, "terragrunt.stack.hcl");
    let stack_files = vec![top];
    let strict = ResolveOptions { strict: true, ..Default::default() };
    let expanded = world.settle(|facts| expand_with_options(facts, &vec![], &stack_files, strict));

    assert!(expanded.eval_report.total() > 0, "strict should record an eval failure; got: {:?}", expanded.eval_report);
}

// ============== Whole runs ==============

fn units_of(cells: &[GhaCell]) -> Vec<&GhaUnit> {
    cells.iter().flat_map(|c| c.units.iter()).collect()
}

#[test]
fn stack_with_shared_module_excludes_source_and_emits_units() {
    let root = stack_path("with_shared_module");
    let projects = World::stacks().run(&root);

    // Shared module dir should NOT appear in output.
    assert!(
        !projects.iter().any(|p| p.dir.contains("/_modules/")),
        "shared module should be excluded; got dirs: {:?}",
        projects.iter().map(|p| &p.dir).collect::<Vec<_>>()
    );

    // Two synthetic units expected.
    let synthetic: Vec<&Project> = projects.iter().filter(|p| p.dir.contains(".terragrunt-stack")).collect();
    assert_eq!(
        synthetic.len(),
        2,
        "expected 2 synthetic units, got: {:?}",
        projects.iter().map(|p| &p.dir).collect::<Vec<_>>()
    );

    // Each synthetic unit should watch the parent stack file.
    for unit in &synthetic {
        assert!(
            unit.watch_files.iter().any(|f| f.ends_with("terragrunt.stack.hcl")),
            "unit {} should watch the parent stack file, got watch_files={:?}",
            unit.dir,
            unit.watch_files
        );
    }
}

#[test]
fn stack_with_generated_dir_does_not_duplicate() {
    let root = stack_path("with_generated_dir");
    let projects = World::stacks().run(&root);

    // Shared module dir excluded.
    assert!(
        !projects.iter().any(|p| p.dir.contains("/_modules/")),
        "shared module should be excluded; got dirs: {:?}",
        projects.iter().map(|p| &p.dir).collect::<Vec<_>>()
    );

    // Generated units are discovered AND synthesised — but should appear only once each.
    let azure_count = projects.iter().filter(|p| p.dir.ends_with("/azure/alpha")).count();
    let saml_count = projects.iter().filter(|p| p.dir.ends_with("/saml/beta")).count();
    assert_eq!(
        azure_count,
        1,
        "azure/alpha emitted {} times, expected 1; dirs: {:?}",
        azure_count,
        projects.iter().map(|p| &p.dir).collect::<Vec<_>>()
    );
    assert_eq!(saml_count, 1, "saml/beta emitted {} times, expected 1", saml_count);

    // Each unit should watch the stack file.
    for unit in projects.iter().filter(|p| p.dir.contains(".terragrunt-stack")) {
        assert!(
            unit.watch_files.iter().any(|f| f.ends_with("terragrunt.stack.hcl")),
            "unit {} should watch the parent stack file, got watch_files={:?}",
            unit.dir,
            unit.watch_files
        );
    }
}

#[test]
fn expand_resolves_source_with_get_repo_root_and_local() {
    let root = stack_path("source_with_get_repo_root");
    let projects = World::stacks().run(&root);
    let cells = generate_gha(&projects, &Some(root), &NameSet::new(), false, &GhaOptions::default()).unwrap();
    let units = units_of(&cells);

    let unseal = units
        .iter()
        .find(|p| p.name.contains("unseal"))
        .unwrap_or_else(|| panic!("expected synthetic `unseal` unit; rows: {:?}", units.iter().map(|p| &p.name).collect::<Vec<_>>()));

    // Source resolves via `${get_repo_root()}/modules/vault/unseal/${local.unseal_type}`;
    // the synthetic unit lives under the stack's `.terragrunt-stack/unseal`.
    assert!(
        unseal.working_directory.ends_with("/.terragrunt-stack/unseal"),
        "unexpected working-directory: {}",
        unseal.working_directory
    );
}

#[test]
fn recursive_stack_sources_emits_leaves_not_shells() {
    let root = stack_path("recursive_stack_sources");
    let live = join(&root, "live");
    let projects = World::stacks().run(&live);

    // GHA view: assert the right leaves appear and no shell entries leak.
    let cells = generate_gha(&projects, &Some(live), &NameSet::new(), false, &GhaOptions::default()).unwrap();
    let units = units_of(&cells);
    let names: Vec<&String> = units.iter().map(|p| &p.name).collect();

    assert!(
        !projects.iter().any(|p| p.dir.ends_with("/.terragrunt-stack/consul")),
        "consul shell leaked into output: {:?}",
        names
    );
    assert!(
        !projects.iter().any(|p| p.dir.ends_with("/.terragrunt-stack/vault")),
        "vault shell leaked into output: {:?}",
        names
    );

    let leaf_suffixes =
        ["consul/.terragrunt-stack/agent", "vault/.terragrunt-stack/core", "vault/.terragrunt-stack/unseal"];
    for suffix in leaf_suffixes {
        let count = units.iter().filter(|p| p.working_directory.ends_with(suffix)).count();
        assert_eq!(count, 1, "expected exactly one entry ending with {}; got: {:?}", suffix, names);
    }
    assert_eq!(units.len(), 3, "expected 3 leaf entries, got: {:?}", names);

    // `unseal`'s source module path contains `shamir`: `${local.unseal_type}` is evaluated while the
    // child stack is expanded.
    let unseal = projects
        .iter()
        .find(|p| p.dir.ends_with("vault/.terragrunt-stack/unseal"))
        .expect("unseal leaf present in output");
    assert!(
        unseal.watch_files.iter().any(|f| f.contains("modules/vault/unseal/shamir")),
        "unseal watch_files must reference the shamir-resolved source; got: {:?}",
        unseal.watch_files
    );
}

// ============== Discovery ==============

#[test]
fn test_discover_projects() {
    let cases: Vec<(&str, Vec<&str>, Vec<&str>)> = vec![
        ("empty", vec![], vec![]),
        ("single_project", vec!["terragrunt.hcl"], vec!["."]),
        (
            "nested_projects",
            vec![
                "live/prod/app/terragrunt.hcl",
                "live/prod/vpc/terragrunt.hcl",
                "live/staging/vpc/terragrunt.hcl",
                "live/staging/vpc/main.tf",
            ],
            vec!["live/prod/app", "live/prod/vpc", "live/staging/vpc"],
        ),
        (
            "with_ignored_dirs",
            vec![
                "vpc/terragrunt.hcl",
                "vpc/.terragrunt-cache/abc/terragrunt.hcl",
                ".terraform/modules/x/terragrunt.hcl",
                "node_modules/y/terragrunt.hcl",
            ],
            vec!["vpc"],
        ),
        (
            "terragrunt_infrastructure_live_example",
            vec![
                "non-prod/us-east-1/qa/mysql/terragrunt.hcl",
                "non-prod/us-east-1/qa/webserver-cluster/terragrunt.hcl",
                "non-prod/us-east-1/stage/mysql/terragrunt.hcl",
                "non-prod/us-east-1/stage/webserver-cluster/terragrunt.hcl",
                "prod/us-east-1/prod/mysql/terragrunt.hcl",
                "prod/us-east-1/prod/webserver-cluster/terragrunt.hcl",
                "root.hcl",
                "_envcommon/mysql.hcl",
            ],
            vec![
                "non-prod/us-east-1/qa/mysql",
                "non-prod/us-east-1/qa/webserver-cluster",
                "non-prod/us-east-1/stage/mysql",
                "non-prod/us-east-1/stage/webserver-cluster",
                "prod/us-east-1/prod/mysql",
                "prod/us-east-1/prod/webserver-cluster",
            ],
        ),
        ("no_projects", vec!["README.md"], vec![]),
    ];
    for (fixture, files, expected) in cases {
        let root = format!("/fixtures/{}", fixture);
        let paths: Vec<String> = files.iter().map(|f| join(&root, f)).collect();
        let mut result = discover_projects(&root, &paths);
        result.sort();

        let mut expected: Vec<String> =
            expected.iter().map(|p| if *p == "." { root.clone() } else { join(&root, p) }).collect();
        expected.sort();

        assert_eq!(result, expected);
    }
}

#[test]
fn generated_directories_are_walked() {
    let paths = vec![
        "/r/live/.terragrunt-stack/a/terragrunt.hcl".to_string(),
        "/r/live/terragrunt.stack.hcl".to_string(),
        "/r/.git/terragrunt.stack.hcl".to_string(),
    ];
    let found = discover_files("/r", &paths);
    assert_eq!(found.units, vec!["/r/live/.terragrunt-stack/a".to_string()]);
    assert_eq!(found.stack_files, vec!["/r/live/terragrunt.stack.hcl".to_string()]);
}

// ============== Evaluation: further cases ==============

#[test]
fn try_is_found_wherever_it_stands() {
    assert!(contains_try(&parse_expr("try(a, b)")));
    assert!(contains_try(&parse_expr("merge({ a = 1 }, { b = try(x.y, 2) })")));
    assert!(contains_try(&parse_expr("[for x in xs : try(x.y, 2)]")));
    assert!(!contains_try(&parse_expr("merge({ a = 1 }, { b = 2 })")));
}

#[test]
fn try_without_success_is_an_error() {
    let err = eval("try(values.a, values.b)", &empty_object(), &empty_object()).unwrap_err();
    assert!(!err.is_empty());
}

#[test]
fn try_without_a_better_argument_is_null() {
    let out = eval("try(values.a, null, values.b)", &empty_object(), &empty_object()).unwrap();
    assert_eq!(out, HclValue::Null);
}

#[test]
fn try_does_not_look_behind_the_first_success() {
    let expr = parse_expr(r#"try(values.hit, file("x"))"#);
    let scope = scope(&obj(&[("hit", HclValue::String("yes".into()))]), &empty_object());
    let answer = World::new().settle(|facts| evaluate_expression(facts, &expr, &scope));
    assert_eq!(answer.result, Ok(HclValue::String("yes".into())));
    assert!(answer.file_calls.is_empty());
}

#[test]
fn the_parent_directory_of_a_context_reaches_expressions() {
    let ctx = ResolveContext::new("/repo/live/app".to_string()).with_parent_dir("/repo/root".to_string());
    let path = PathExpr::HclExpr(Box::new(parse_expr("get_parent_terragrunt_dir()")));
    assert_eq!(resolve(&ctx, &path), Some("/repo/root".to_string()));
}

#[test]
fn for_over_a_number_is_an_error() {
    assert!(eval("[for x in 3 : x]", &empty_object(), &empty_object()).is_err());
}

#[test]
fn a_failing_for_names_the_value() {
    let message = |src: &str| eval(src, &empty_object(), &empty_object()).unwrap_err();
    let first = "try(values.none, 1)";
    assert_eq!(message(&format!("[for x in 3 : {}]", first)), "for: expected array or object, got Number(Number(3))");
    assert_eq!(
        message(&format!(r#"[for x in "a\"b" : {}]"#, first)),
        r#"for: expected array or object, got String("a\"b")"#
    );
    assert_eq!(
        message(&format!(r#"[for x in [1] : {} if {{ a = [null, true], b = "c" }}]"#, first)),
        r#"for: condition must be boolean, got Object({"a": Array([Null, Bool(true)]), "b": String("c")})"#
    );
    assert_eq!(
        message(&format!("{{ for x in [1] : [] => {} }}", first)),
        "for: object key must be string-like, got Array([])"
    );
}

#[test]
fn for_object_with_grouping_collects_values() {
    let out = eval(
        r#"{ for x in ["a1", "a2"] : "k" => x... }"#,
        &empty_object(),
        &empty_object(),
    )
    .unwrap();
    let expected = obj(&[("k", HclValue::Array(vec![HclValue::String("a1".into()), HclValue::String("a2".into())]))]);
    assert_eq!(out, expected);
}

#[test]
fn locals_may_refer_forward() {
    let body = parse_hcl(
        r#"
        locals {
          c = "${local.b}3"
          b = "${local.a}2"
          a = "1"
        }
    "#,
    )
    .unwrap();
    let HclValue::Object(map) = locals_in(&body, &empty_object()).unwrap() else {
        panic!("expected object");
    };
    assert_eq!(get(&map, "a"), Some(&HclValue::String("1".into())));
    assert_eq!(get(&map, "b"), Some(&HclValue::String("12".into())));
    assert_eq!(get(&map, "c"), Some(&HclValue::String("123".into())));
}

#[test]
fn members_are_compared_as_hcl_does() {
    let found = |src: &str| eval(src, &empty_object(), &empty_object()).unwrap();
    assert_eq!(found("contains([1, 2], 2)"), HclValue::Bool(true));
    assert_eq!(found("contains([1, 2], \"2\")"), HclValue::Bool(false));
    assert_eq!(found("contains([{ a = 1, b = 2 }], { b = 2, a = 1 })"), HclValue::Bool(true));
    assert_eq!(found("contains([{ a = 1, b = 2 }], { a = 1 })"), HclValue::Bool(false));
    assert_eq!(found("contains([18446744073709551615], 18446744073709551616.0)"), HclValue::Bool(true));
    assert_eq!(found("contains([18446744073709549568], 18446744073709551616.0)"), HclValue::Bool(false));
}

#[test]
fn functions_reach_the_evaluator() {
    assert_eq!(eval(r#"lower("ÄB")"#, &empty_object(), &empty_object()), Ok(HclValue::String("äb".into())));
    assert_eq!(eval(r#"dirname("/a/b/c.hcl")"#, &empty_object(), &empty_object()), Ok(HclValue::String("/a/b".into())));
    assert_eq!(
        eval("concat([1], [2, 3])", &empty_object(), &empty_object()),
        Ok(HclValue::Array(vec![number(1), number(2), number(3)]))
    );
}

// ============== Resolution: further cases ==============

#[test]
fn a_condition_resolves_to_both_branches() {
    let ctx = ResolveContext::new(resolver_path("repo/live/prod/vpc"));
    let path = PathExpr::Conditional {
        true_branch: Box::new(PathExpr::Literal("../a".to_string())),
        false_branch: Box::new(PathExpr::Literal("../b".to_string())),
    };
    let resolved = World::resolver().settle(|facts| ctx.resolve_all(facts, &path));
    assert_eq!(resolved.paths, vec![resolver_path("repo/live/prod/a"), resolver_path("repo/live/prod/b")]);
}

#[test]
fn an_included_config_has_two_directories() {
    let ctx = ResolveContext::for_included_config(resolver_path("repo"), resolver_path("repo/live/prod/vpc"));
    assert_eq!(resolve(&ctx, &PathExpr::Literal("modules".to_string())), Some(resolver_path("repo/modules")));
    assert_eq!(resolve(&ctx, &PathExpr::FindInParentFolders(Some("region.hcl".to_string()))), Some(resolver_path("repo/live/prod/region.hcl")));
}

#[test]
fn an_absolute_path_is_the_same_from_anywhere() {
    let here = ResolveContext::new("/a/b".to_string());
    let there = ResolveContext::new("/c".to_string());
    let path = PathExpr::Literal("/x/../y/./z".to_string());
    assert_eq!(resolve(&here, &path), Some("/y/z".to_string()));
    assert_eq!(resolve(&there, &path), Some("/y/z".to_string()));
}

#[test]
fn normalizing_twice_changes_nothing() {
    for path in ["/a/./b/../c", "a/../../b", "/../x", "..", ".", ""] {
        let once = normalize_path(path);
        assert_eq!(normalize_path(&once), once);
    }
    assert_eq!(normalize_path("/a/./b/../c"), "/a/c");
    assert_eq!(normalize_path("/../a"), "/a");
    assert_eq!(normalize_path("/a/../../../b/.."), "/");
    assert_eq!(normalize_path("a/../../b"), "../b");
}

#[test]
fn calls_of_file_functions_are_events() {
    let ctx = ResolveContext::new(resolver_path("repo/live/prod/vpc")).with_stack_file("/s.hcl".to_string());
    let path = PathExpr::HclExpr(Box::new(parse_expr(r#"file("x")"#)));
    let (_, events) = World::resolver().settle(|facts| ctx.resolve(facts, &path));
    assert!(events.iter().any(|e| matches!(e, Event::FileCall { function, stack_file } if function == "file" && stack_file == "/s.hcl")));
    assert_eq!(summarize(&events).file_io_failures, 1);
}

// ============== Processing: further cases ==============

#[test]
fn dependency_styles_differ() {
    let dirs = vec![processor_path("with_read_terragrunt_config/app")];
    let named = World::processor().settle(|facts| process_all_projects(facts, &dirs, DependencyStyle::Name));
    let pathed = World::processor().settle(|facts| process_all_projects(facts, &dirs, DependencyStyle::Path));
    match (&named[0], &pathed[0]) {
        (ProjectResult::Processed(a), ProjectResult::Processed(b)) => {
            assert_eq!(a.project_dependencies, vec!["rds".to_string(), "shared_vpc".to_string()]);
            assert_eq!(
                b.project_dependencies,
                vec![processor_path("shared/vpc"), processor_path("with_read_terragrunt_config/rds")]
            );
            assert_eq!(a.watch_files, b.watch_files);
        }
        other => panic!("Expected two projects, got {:?}", other),
    }
}

#[test]
fn a_broken_project_fails() {
    let mut world = World::new();
    world.write("/broken/terragrunt.hcl", "dependency {");
    let dirs = vec!["/broken".to_string()];
    let results = world.settle(|facts| process_all_projects(facts, &dirs, DependencyStyle::Path));
    match &results[0] {
        ProjectResult::Failed { path, error } => {
            assert_eq!(path, "/broken");
            assert!(!error.is_empty());
        }
        other => panic!("Expected a failure, got {:?}", other),
    }
}

#[test]
fn errors_as_text() {
    assert!(ProcessError::ParseError("x".to_string()).to_text().contains('x'));
    assert!(ProcessError::IoError("y".to_string()).to_text().contains('y'));
    assert!(ProcessError::CircularReference("z".to_string()).to_text().contains('z'));
}

#[test]
fn values_reach_the_dependencies_of_a_project() {
    let mut world = World::new();
    world.write("/p/unit/terragrunt.hcl", "dependency \"d\" {\n  config_path = values.dep\n}\n");
    world.make_dir("/p/other");
    let project = world
        .settle(|facts| {
            let values = obj(&[("dep", HclValue::String("../other".into()))]);
            process_project_with_deps_with_values(facts, "/p/unit", Some(values))
        })
        .unwrap();
    assert_eq!(project.project_dependencies, vec!["/p/other".to_string()]);
}

#[test]
fn names_of_dependencies() {
    assert_eq!(derive_dependency_name("/repo/live/vpc", "/repo/live/app"), "vpc");
    assert_eq!(derive_dependency_name("/repo/live/net/vpc", "/repo/live/app"), "net_vpc");
    assert_eq!(derive_dependency_name("/elsewhere/a/b/c", "/repo/live/app"), "b_c");
}

// ============== Stack files: further cases ==============

#[test]
fn blocks_of_a_stack_file_are_told_apart() {
    let parsed = World::stacks().stack(&stack_path("recursive_stack_sources/stacks/vault/terragrunt.stack.hcl")).unwrap();
    assert!(parsed.units.iter().all(|u| u.kind == BlockKind::Unit));
    let parsed = World::stacks().stack(&stack_path("recursive_stack_sources/live/terragrunt.stack.hcl")).unwrap();
    assert!(parsed.units.iter().all(|u| u.kind == BlockKind::Stack));
    assert_eq!(parsed.units[1].path, "vault");
}

#[test]
fn a_remote_stack_is_warned_of() {
    let mut world = World::new();
    world.write_stack("/work", "stack \"far\" {\n  source = \"git::ssh://example.com/foo.git\"\n  path = \"far\"\n}\n");
    let expanded = world.expand(vec!["/work/terragrunt.stack.hcl".to_string()]);
    let warning = "Warning: source of stack 'far' in /work/terragrunt.stack.hcl is remote; skipping";
    assert_eq!(expanded.events, vec![Event::RemoteSkipped, Event::Warning(warning.to_string())]);
    assert_eq!(expanded.eval_report.remote_sources_skipped, 1);
}

#[test]
fn depth_is_limited() {
    let mut world = World::new();
    world.write_stack("/w", "stack \"a\" {\n  source = \"./a\"\n  path = \"a\"\n}\n");
    world.write_stack("/w/a", "stack \"b\" {\n  source = \"./b\"\n  path = \"b\"\n}\n");
    world.write_stack("/w/a/b", "unit \"c\" {\n  source = \"../../../m\"\n  path = \"c\"\n}\n");
    let files = vec!["/w/terragrunt.stack.hcl".to_string()];
    let shallow = ResolveOptions { strict: false, max_recursion_depth: 1 };
    let expanded = world.settle(|facts| expand_with_options(facts, &vec![], &files, shallow));
    assert_eq!(expanded.eval_report.recursion_depth_exceeded, 1);
    assert!(!expanded.synthetic_projects.iter().any(|p| p.dir.ends_with("/c")));

    let expanded = world.expand(files);
    assert_eq!(expanded.eval_report, EvalReport::default());
    assert_eq!(expanded.synthetic_projects.len(), 1);
    assert_eq!(
        expanded.synthetic_projects[0].dir,
        "/w/.terragrunt-stack/a/.terragrunt-stack/b/.terragrunt-stack/c"
    );
}

#[test]
fn a_stack_file_inside_a_tree_that_is_no_stack_has_no_ancestor() {
    assert!(nearest_stack_ancestor("/root/live/svc").is_none());
}

#[test]
fn projects_are_shown_from_the_base() {
    assert_eq!(make_relative("/repo/live/a", &Some("/repo".to_string())), "live/a");
    assert_eq!(make_relative("/elsewhere/a", &Some("/repo".to_string())), "/elsewhere/a");
}
