use terragrunt_dag::builtins::{
    basename_func, coalesce_func, concat_func, contains_func, dir_func, dirname_func, format_func, get_env_func,
    join_func, keys_func, length_func, lookup_func, lower_func, merge_func, passthrough_string_func,
    regex_replace_func, replace_func, split_func, stub_string_func, tostring_func, trimspace_func, try_func,
    upper_func, value_to_display_string, values_func,
};
use terragrunt_dag::functions::{all_functions, call_function, Function, ParamKind, Surroundings};
use terragrunt_dag::syntax::{HclValue, Number};

fn text(s: &str) -> HclValue {
    HclValue::String(s.to_string())
}

fn number(n: u64) -> HclValue {
    HclValue::Number(Number::PosInt(n))
}

fn array(items: Vec<HclValue>) -> HclValue {
    HclValue::Array(items)
}

fn object(items: Vec<(&str, HclValue)>) -> HclValue {
    HclValue::Object(items.into_iter().map(|(k, v)| (k.to_string(), v)).collect())
}

fn notations(items: &[&str]) -> Vec<String> {
    items.iter().map(|s| s.to_string()).collect()
}

fn message(s: &str) -> Result<HclValue, String> {
    Err(s.to_string())
}

#[test]
fn strings_are_changed() {
    assert_eq!(trimspace_func(&vec![text("  a b\n")]), Ok(text("a b")));
    assert_eq!(lower_func(&vec![text("AbÇ")]), Ok(text("abç")));
    assert_eq!(upper_func(&vec![text("aß")]), Ok(text("ASS")));
    assert_eq!(replace_func(&vec![text("a-b-c"), text("-"), text("+")]), Ok(text("a+b+c")));
    assert_eq!(regex_replace_func(&vec![text("a.b"), text("."), text("_")]), Ok(text("a_b")));
    assert_eq!(basename_func(&vec![text("/a/b/c.hcl")]), Ok(text("c.hcl")));
    assert_eq!(dirname_func(&vec![text("/a/b/c.hcl")]), Ok(text("/a/b")));
    assert_eq!(passthrough_string_func(&vec![text("~/x")]), Ok(text("~/x")));
    assert_eq!(stub_string_func(), Ok(text("")));
}

#[test]
fn strings_are_asked_for() {
    assert_eq!(trimspace_func(&vec![number(1)]), message("trimspace: expected string"));
    assert_eq!(lower_func(&vec![]), message("lower: expected string"));
    assert_eq!(upper_func(&vec![HclValue::Null]), message("upper: expected string"));
    assert_eq!(basename_func(&vec![number(1)]), message("basename: expected string"));
    assert_eq!(dirname_func(&vec![number(1)]), message("dirname: expected string"));
    assert_eq!(replace_func(&vec![text("a"), text("b")]), message("replace: expected string"));
    assert_eq!(regex_replace_func(&vec![]), message("regex_replace: expected string"));
    assert_eq!(regex_replace_func(&vec![text("a")]), message("regex_replace: expected pattern"));
    assert_eq!(regex_replace_func(&vec![text("a"), text("b")]), message("regex_replace: expected replacement"));
    assert_eq!(passthrough_string_func(&vec![]), message("expected string"));
}

#[test]
fn lists_are_built_and_taken_apart() {
    assert_eq!(split_func(&vec![text(","), text("a,b,")]), Ok(array(vec![text("a"), text("b"), text("")])));
    let items = array(vec![text("a"), number(2), array(vec![])]);
    assert_eq!(join_func(&vec![text("-"), items], &notations(&["\"a\"", "2", "[]"])), Ok(text("a-2-[]")));
    assert_eq!(
        concat_func(&vec![array(vec![number(1)]), array(vec![]), array(vec![number(2)])]),
        Ok(array(vec![number(1), number(2)]))
    );
    assert_eq!(length_func(&vec![array(vec![number(1), number(2)])]), Ok(number(2)));
    assert_eq!(length_func(&vec![object(vec![("a", number(1))])]), Ok(number(1)));
    assert_eq!(contains_func(&vec![array(vec![text("a"), text("b")]), text("b")], &vec![false, true]), Ok(HclValue::Bool(true)));
    assert_eq!(contains_func(&vec![array(vec![text("a")]), text("b")], &vec![false]), Ok(HclValue::Bool(false)));
    assert_eq!(concat_func(&vec![text("a")]), message("concat: expected arrays"));
    assert_eq!(length_func(&vec![]), message("length: missing argument"));
    assert_eq!(length_func(&vec![number(1)]), message("length: unsupported type"));
    assert_eq!(contains_func(&vec![text("a"), text("b")], &vec![]), message("contains: expected array"));
    assert_eq!(split_func(&vec![]), message("split: expected separator string"));
    assert_eq!(split_func(&vec![text(",")]), message("split: expected string"));
    assert_eq!(join_func(&vec![text(","), text("a")], &vec![]), message("join: expected array"));
    assert_eq!(join_func(&vec![], &vec![]), message("join: expected separator string"));
}

#[test]
fn objects_are_merged_and_read() {
    let a = object(vec![("a", number(1)), ("b", number(2))]);
    let b = object(vec![("b", number(3)), ("c", number(4))]);
    let merged = merge_func(&vec![a.clone(), b]).unwrap();
    assert_eq!(merged, object(vec![("a", number(1)), ("b", number(3)), ("c", number(4))]));
    assert_eq!(merge_func(&vec![a.clone(), text("x")]), message("merge: expected object arguments"));
    assert_eq!(merge_func(&vec![]), Ok(object(vec![])));
    assert_eq!(keys_func(&vec![a.clone()]), Ok(array(vec![text("a"), text("b")])));
    assert_eq!(values_func(&vec![a.clone()]), Ok(array(vec![number(1), number(2)])));
    assert_eq!(keys_func(&vec![text("x")]), message("keys: expected object"));
    assert_eq!(values_func(&vec![]), message("values: expected object"));
    assert_eq!(lookup_func(&vec![a.clone(), text("b"), text("d")]), Ok(number(2)));
    assert_eq!(lookup_func(&vec![a.clone(), text("z"), text("d")]), Ok(text("d")));
    assert_eq!(lookup_func(&vec![]), message("lookup: missing map"));
    assert_eq!(lookup_func(&vec![a.clone()]), message("lookup: missing key"));
    assert_eq!(lookup_func(&vec![a, number(1)]), message("lookup: key must be a string"));
    assert_eq!(lookup_func(&vec![text("x"), text("y")]), message("lookup: first argument must be an object"));
}

#[test]
fn the_first_value_that_is_not_null() {
    assert_eq!(coalesce_func(&vec![HclValue::Null, number(1), number(2)]), Ok(number(1)));
    assert_eq!(coalesce_func(&vec![HclValue::Null]), Ok(HclValue::Null));
    assert_eq!(try_func(&vec![HclValue::Null, text("x")]), Ok(text("x")));
}

#[test]
fn values_are_written_out() {
    assert_eq!(tostring_func(&vec![number(7)], "7"), Ok(text("7")));
    assert_eq!(tostring_func(&vec![HclValue::Bool(true)], "true"), Ok(text("true")));
    assert_eq!(tostring_func(&vec![HclValue::Null], "null"), Ok(text("")));
    assert_eq!(tostring_func(&vec![], ""), message("tostring: missing argument"));
    assert_eq!(value_to_display_string(&HclValue::Number(Number::NegInt(-12)), "-12"), "-12");
    assert_eq!(value_to_display_string(&HclValue::Number(Number::PosInt(u64::MAX)), ""), "18446744073709551615");
    assert_eq!(value_to_display_string(&HclValue::Number(Number::NegInt(i64::MIN)), ""), "-9223372036854775808");
    assert_eq!(value_to_display_string(&array(vec![]), "[]"), "[]");
}

#[test]
fn texts_are_formatted() {
    let none = notations(&["", ""]);
    assert_eq!(format_func(&vec![text("svc-%s"), text("eu")], &none), Ok(text("svc-eu")));
    assert_eq!(format_func(&vec![text("%d%%"), number(5)], &none), Ok(text("5%")));
    assert_eq!(format_func(&vec![text("%s"), array(vec![])], &notations(&["[]"])), Ok(text("[]")));
    assert_eq!(format_func(&vec![text("%s")], &vec![]), message("format: too few arguments"));
    assert_eq!(format_func(&vec![text("a%")], &vec![]), message("format: trailing %"));
    assert_eq!(format_func(&vec![text("%y"), text("a")], &none), message("format: unsupported verb %y"));
    assert_eq!(format_func(&vec![number(1)], &vec![]), message("format: first argument must be a string"));
}

#[test]
fn the_environment_is_not_looked_into() {
    assert_eq!(get_env_func(&vec![text("PATH"), text("d")]), Ok(text("d")));
    assert_eq!(get_env_func(&vec![text("PATH")]), Ok(text("")));
    assert_eq!(get_env_func(&vec![number(1)]), message("get_env: first argument must be a string"));
}

// ============== Calls by name ==============

fn around(strict: bool) -> Surroundings {
    Surroundings {
        terragrunt_dir: "/repo/live".to_string(),
        parent_dir: Some("/repo".to_string()),
        repo_root: None,
        strict,
    }
}

fn call(f: Function, args: Vec<HclValue>, strict: bool) -> Result<HclValue, String> {
    call_function(f, &args, &vec![], &vec![], &vec![], &around(strict))
}

#[test]
fn what_would_look_outside_is_empty() {
    assert_eq!(call(Function::File, vec![text("x")], false), Ok(text("")));
    assert_eq!(call(Function::Fileexists, vec![text("x")], false), Ok(HclValue::Bool(false)));
    assert_eq!(call(Function::Yamldecode, vec![text("x")], false), Ok(object(vec![])));
    assert_eq!(call(Function::GetEnv, vec![text("x"), text("d")], false), Ok(text("d")));
    assert_eq!(call(Function::File, vec![text("x")], true), message("file() cannot be evaluated"));
    assert_eq!(call(Function::GetEnv, vec![text("x"), text("d")], true), message("get_env() cannot be evaluated"));
}

#[test]
fn directories_come_from_the_surroundings() {
    assert_eq!(call(Function::GetTerragruntDir, vec![], true), Ok(text("/repo/live")));
    assert_eq!(call(Function::GetParentTerragruntDir, vec![], true), Ok(text("/repo")));
    assert_eq!(call(Function::GetRepoRoot, vec![], true), Ok(text("")));
    assert_eq!(dir_func(&Some("/a".to_string())), Ok(text("/a")));
}

#[test]
fn functions_are_called_by_name() {
    let all = all_functions();
    let named = |name: &str| *all.iter().find(|f| f.name() == name).unwrap();
    assert_eq!(call(named("upper"), vec![text("a")], false), Ok(text("A")));
    assert_eq!(call(named("merge"), vec![], false), Ok(object(vec![])));
    assert_eq!(call(named("jsonencode"), vec![text("a")], false), Ok(text("")));
    assert_eq!(call(named("abspath"), vec![text("a")], false), Ok(text("a")));
    let notes = notations(&["\"%s\"", "[]"]);
    assert_eq!(
        call_function(named("format"), &vec![text("%s"), array(vec![])], &notes, &vec![], &vec![], &around(false)),
        Ok(text("[]"))
    );
    for f in &all {
        assert_eq!(all.iter().filter(|g| g.name() == f.name()).count(), 1);
    }
}

#[test]
fn parameters_of_functions() {
    let lookup = Function::Lookup.signature();
    assert_eq!(lookup.params, vec![ParamKind::Dictionary, ParamKind::Text, ParamKind::Any]);
    assert_eq!(lookup.rest, None);
    let merge = Function::Merge.signature();
    assert!(merge.params.is_empty());
    assert_eq!(merge.rest, Some(ParamKind::Dictionary));
    assert_eq!(Function::Contains.signature().params, vec![ParamKind::List, ParamKind::Any]);
    assert!(Function::RunCmd.looks_outside());
    assert!(!Function::Jsonencode.looks_outside());
}
