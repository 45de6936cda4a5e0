//! The functions that expressions can call, as a table: their names, their parameters, and what a
//! call comes to.

use crate::builtins::{
    basename_func, coalesce_func, concat_func, contains_func, dir_func, dirname_func, false_func, format_func,
    get_env_func, get_notation, join_func, keys_func, length_func, lookup_func, lower_func, merge_func, passthrough_string_func,
    regex_replace_func, replace_func, split_func, stub_object_func, stub_string_func, tostring_func, trimspace_func,
    try_func, upper_func, values_func,
};
#[allow(unused_imports)]
use crate::builtins::{
    basename_call, call_view, concat_call, contains_call, dirname_call, failed, first_not_null, format_call,
    get_env_call, join_call, keys_call, length_call, lookup_call, lower_call, merge_call, notation_at,
    passthrough_string_call, regex_replace_call, replace_call, split_call, tostring_call, trimspace_call, upper_call,
    values_call, CallView,
};
use crate::syntax::HclValue;
#[allow(unused_imports)]
use crate::syntax::{value_views, ValueView};
use crate::text::concat;
#[allow(unused_imports)]
use crate::text::{opt_text, texts};
use vstd::prelude::*;

verus! {

/// A function that expressions can call.
#[derive(Debug, Clone, Copy, PartialEq, Eq, Structural)]
pub enum Function {
    Merge,
    Format,
    Try,
    Tostring,
    Coalesce,
    Lookup,
    GetRepoRoot,
    GetTerragruntDir,
    GetParentTerragruntDir,
    GetEnv,
    FindInParentFolders,
    File,
    Fileexists,
    Templatefile,
    ReadTerragruntConfig,
    Jsondecode,
    Yamldecode,
    RunCmd,
    Jsonencode,
    Yamlencode,
    Trimspace,
    Lower,
    Upper,
    Replace,
    Split,
    Join,
    Concat,
    Length,
    Keys,
    Values,
    Contains,
    RegexReplace,
    Abspath,
    Basename,
    Dirname,
    Pathexpand,
}

/// The kind of value that a parameter takes.
#[derive(Debug, Clone, Copy, PartialEq, Eq, Structural)]
pub enum ParamKind {
    /// Any value
    Any,
    /// A string
    Text,
    /// An array of any values
    List,
    /// An object with any values
    Dictionary,
}

/// The parameters of a function: those that it has to be given, and the kind of any further ones.
#[derive(Debug, PartialEq, Eq)]
pub struct Signature {
    pub params: Vec<ParamKind>,
    pub rest: Option<ParamKind>,
}

pub struct SignatureView {
    pub params: Seq<ParamKind>,
    pub rest: Option<ParamKind>,
}

impl View for Signature {
    type V = SignatureView;

    open spec fn view(&self) -> SignatureView {
        SignatureView { params: self.params@, rest: self.rest }
    }
}

/// What functions see of the place that they are called from.
#[derive(Debug, PartialEq, Eq)]
pub struct Surroundings {
    /// The directory that is being evaluated
    pub terragrunt_dir: String,
    /// The directory of the parent stack file
    pub parent_dir: Option<String>,
    /// The repository that the directory is in
    pub repo_root: Option<String>,
    /// Whether functions that would look outside fail
    pub strict: bool,
}

pub struct SurroundingsView {
    pub terragrunt_dir: Seq<char>,
    pub parent_dir: Option<Seq<char>>,
    pub repo_root: Option<Seq<char>>,
    pub strict: bool,
}

impl View for Surroundings {
    type V = SurroundingsView;

    open spec fn view(&self) -> SurroundingsView {
        SurroundingsView {
            terragrunt_dir: self.terragrunt_dir@,
            parent_dir: opt_text(self.parent_dir),
            repo_root: opt_text(self.repo_root),
            strict: self.strict,
        }
    }
}

// ----------------------------------------------------------------------- names

/// The name that a function is called by.
pub open spec fn name_of(f: Function) -> Seq<char> {
    match f {
        Function::Merge => "merge"@,
        Function::Format => "format"@,
        Function::Try => "try"@,
        Function::Tostring => "tostring"@,
        Function::Coalesce => "coalesce"@,
        Function::Lookup => "lookup"@,
        Function::GetRepoRoot => "get_repo_root"@,
        Function::GetTerragruntDir => "get_terragrunt_dir"@,
        Function::GetParentTerragruntDir => "get_parent_terragrunt_dir"@,
        Function::GetEnv => "get_env"@,
        Function::FindInParentFolders => "find_in_parent_folders"@,
        Function::File => "file"@,
        Function::Fileexists => "fileexists"@,
        Function::Templatefile => "templatefile"@,
        Function::ReadTerragruntConfig => "read_terragrunt_config"@,
        Function::Jsondecode => "jsondecode"@,
        Function::Yamldecode => "yamldecode"@,
        Function::RunCmd => "run_cmd"@,
        Function::Jsonencode => "jsonencode"@,
        Function::Yamlencode => "yamlencode"@,
        Function::Trimspace => "trimspace"@,
        Function::Lower => "lower"@,
        Function::Upper => "upper"@,
        Function::Replace => "replace"@,
        Function::Split => "split"@,
        Function::Join => "join"@,
        Function::Concat => "concat"@,
        Function::Length => "length"@,
        Function::Keys => "keys"@,
        Function::Values => "values"@,
        Function::Contains => "contains"@,
        Function::RegexReplace => "regex_replace"@,
        Function::Abspath => "abspath"@,
        Function::Basename => "basename"@,
        Function::Dirname => "dirname"@,
        Function::Pathexpand => "pathexpand"@,
    }
}

/// All functions.
pub fn all_functions() -> (res: Vec<Function>)
    ensures
        forall|f: Function| res@.contains(f),
        res@.no_duplicates(),
{
    let mut out: Vec<Function> = Vec::new();
    out.push(Function::Merge);
    out.push(Function::Format);
    out.push(Function::Try);
    out.push(Function::Tostring);
    out.push(Function::Coalesce);
    out.push(Function::Lookup);
    out.push(Function::GetRepoRoot);
    out.push(Function::GetTerragruntDir);
    out.push(Function::GetParentTerragruntDir);
    out.push(Function::GetEnv);
    out.push(Function::FindInParentFolders);
    out.push(Function::File);
    out.push(Function::Fileexists);
    out.push(Function::Templatefile);
    out.push(Function::ReadTerragruntConfig);
    out.push(Function::Jsondecode);
    out.push(Function::Yamldecode);
    out.push(Function::RunCmd);
    out.push(Function::Jsonencode);
    out.push(Function::Yamlencode);
    out.push(Function::Trimspace);
    out.push(Function::Lower);
    out.push(Function::Upper);
    out.push(Function::Replace);
    out.push(Function::Split);
    out.push(Function::Join);
    out.push(Function::Concat);
    out.push(Function::Length);
    out.push(Function::Keys);
    out.push(Function::Values);
    out.push(Function::Contains);
    out.push(Function::RegexReplace);
    out.push(Function::Abspath);
    out.push(Function::Basename);
    out.push(Function::Dirname);
    out.push(Function::Pathexpand);
    proof {
        let all = out@;
        assert(all[0] == Function::Merge);
        assert(all[1] == Function::Format);
        assert(all[2] == Function::Try);
        assert(all[3] == Function::Tostring);
        assert(all[4] == Function::Coalesce);
        assert(all[5] == Function::Lookup);
        assert(all[6] == Function::GetRepoRoot);
        assert(all[7] == Function::GetTerragruntDir);
        assert(all[8] == Function::GetParentTerragruntDir);
        assert(all[9] == Function::GetEnv);
        assert(all[10] == Function::FindInParentFolders);
        assert(all[11] == Function::File);
        assert(all[12] == Function::Fileexists);
        assert(all[13] == Function::Templatefile);
        assert(all[14] == Function::ReadTerragruntConfig);
        assert(all[15] == Function::Jsondecode);
        assert(all[16] == Function::Yamldecode);
        assert(all[17] == Function::RunCmd);
        assert(all[18] == Function::Jsonencode);
        assert(all[19] == Function::Yamlencode);
        assert(all[20] == Function::Trimspace);
        assert(all[21] == Function::Lower);
        assert(all[22] == Function::Upper);
        assert(all[23] == Function::Replace);
        assert(all[24] == Function::Split);
        assert(all[25] == Function::Join);
        assert(all[26] == Function::Concat);
        assert(all[27] == Function::Length);
        assert(all[28] == Function::Keys);
        assert(all[29] == Function::Values);
        assert(all[30] == Function::Contains);
        assert(all[31] == Function::RegexReplace);
        assert(all[32] == Function::Abspath);
        assert(all[33] == Function::Basename);
        assert(all[34] == Function::Dirname);
        assert(all[35] == Function::Pathexpand);
    }
    out
}

impl Function {
    /// The name that the function is called by.
    pub fn name(self) -> (res: &'static str)
        ensures
            res@ == name_of(self),
    {
        match self {
            Function::Merge => "merge",
            Function::Format => "format",
            Function::Try => "try",
            Function::Tostring => "tostring",
            Function::Coalesce => "coalesce",
            Function::Lookup => "lookup",
            Function::GetRepoRoot => "get_repo_root",
            Function::GetTerragruntDir => "get_terragrunt_dir",
            Function::GetParentTerragruntDir => "get_parent_terragrunt_dir",
            Function::GetEnv => "get_env",
            Function::FindInParentFolders => "find_in_parent_folders",
            Function::File => "file",
            Function::Fileexists => "fileexists",
            Function::Templatefile => "templatefile",
            Function::ReadTerragruntConfig => "read_terragrunt_config",
            Function::Jsondecode => "jsondecode",
            Function::Yamldecode => "yamldecode",
            Function::RunCmd => "run_cmd",
            Function::Jsonencode => "jsonencode",
            Function::Yamlencode => "yamlencode",
            Function::Trimspace => "trimspace",
            Function::Lower => "lower",
            Function::Upper => "upper",
            Function::Replace => "replace",
            Function::Split => "split",
            Function::Join => "join",
            Function::Concat => "concat",
            Function::Length => "length",
            Function::Keys => "keys",
            Function::Values => "values",
            Function::Contains => "contains",
            Function::RegexReplace => "regex_replace",
            Function::Abspath => "abspath",
            Function::Basename => "basename",
            Function::Dirname => "dirname",
            Function::Pathexpand => "pathexpand",
        }
    }

    /// The parameters of the function.
    pub fn signature(self) -> (res: Signature)
        ensures
            res@ == signature_of(self),
    {
        let res = match self {
            Function::Merge => signature(Vec::new(), Some(ParamKind::Dictionary)),
            Function::Format | Function::GetEnv | Function::Templatefile
            | Function::ReadTerragruntConfig => signature(vec![ParamKind::Text], Some(ParamKind::Any)),
            Function::Try => signature(vec![ParamKind::Any], Some(ParamKind::Any)),
            Function::Tostring | Function::Jsonencode | Function::Yamlencode | Function::Length => signature(vec![ParamKind::Any], None),
            Function::Coalesce | Function::RunCmd => signature(Vec::new(), Some(ParamKind::Any)),
            Function::Lookup => signature(vec![ParamKind::Dictionary, ParamKind::Text, ParamKind::Any], None),
            Function::GetRepoRoot | Function::GetTerragruntDir | Function::GetParentTerragruntDir => signature(Vec::new(), None),
            Function::FindInParentFolders => signature(Vec::new(), Some(ParamKind::Text)),
            Function::File | Function::Fileexists | Function::Jsondecode | Function::Yamldecode
            | Function::Trimspace | Function::Lower | Function::Upper | Function::Abspath
            | Function::Basename | Function::Dirname | Function::Pathexpand => signature(vec![ParamKind::Text], None),
            Function::Replace | Function::RegexReplace => signature(vec![ParamKind::Text, ParamKind::Text, ParamKind::Text], None),
            Function::Split => signature(vec![ParamKind::Text, ParamKind::Text], None),
            Function::Join => signature(vec![ParamKind::Text, ParamKind::List], None),
            Function::Concat => signature(Vec::new(), Some(ParamKind::List)),
            Function::Keys | Function::Values => signature(vec![ParamKind::Dictionary], None),
            Function::Contains => signature(vec![ParamKind::List, ParamKind::Any], None),
        };
        assert(res@.params =~= signature_of(self).params);
        res
    }

    /// Whether the function would look outside: read a file, parse a document, ask the environment or
    /// run a command.
    pub fn looks_outside(self) -> (res: bool)
        ensures
            res == is_outside(self),
    {
        match self {
            Function::GetEnv | Function::FindInParentFolders | Function::File | Function::Fileexists
            | Function::Templatefile | Function::ReadTerragruntConfig | Function::Jsondecode
            | Function::Yamldecode | Function::RunCmd => true,
            _ => false,
        }
    }
}

fn signature(params: Vec<ParamKind>, rest: Option<ParamKind>) -> (res: Signature)
    ensures
        res@ == (SignatureView { params: params@, rest }),
{
    Signature { params, rest }
}

/// The parameters of a function.
pub open spec fn signature_of(f: Function) -> SignatureView {
    match f {
        Function::Merge => SignatureView {
            params: seq![],
            rest: Some(ParamKind::Dictionary),
        },
        Function::Format | Function::GetEnv | Function::Templatefile
        | Function::ReadTerragruntConfig => SignatureView {
            params: seq![ParamKind::Text],
            rest: Some(ParamKind::Any),
        },
        Function::Try => SignatureView {
            params: seq![ParamKind::Any],
            rest: Some(ParamKind::Any),
        },
        Function::Tostring | Function::Jsonencode | Function::Yamlencode | Function::Length => SignatureView {
            params: seq![ParamKind::Any],
            rest: None,
        },
        Function::Coalesce | Function::RunCmd => SignatureView {
            params: seq![],
            rest: Some(ParamKind::Any),
        },
        Function::Lookup => SignatureView {
            params: seq![ParamKind::Dictionary, ParamKind::Text, ParamKind::Any],
            rest: None,
        },
        Function::GetRepoRoot | Function::GetTerragruntDir | Function::GetParentTerragruntDir => SignatureView {
            params: seq![],
            rest: None,
        },
        Function::FindInParentFolders => SignatureView {
            params: seq![],
            rest: Some(ParamKind::Text),
        },
        Function::File | Function::Fileexists | Function::Jsondecode | Function::Yamldecode
        | Function::Trimspace | Function::Lower | Function::Upper | Function::Abspath
        | Function::Basename | Function::Dirname | Function::Pathexpand => SignatureView {
            params: seq![ParamKind::Text],
            rest: None,
        },
        Function::Replace | Function::RegexReplace => SignatureView {
            params: seq![ParamKind::Text, ParamKind::Text, ParamKind::Text],
            rest: None,
        },
        Function::Split => SignatureView {
            params: seq![ParamKind::Text, ParamKind::Text],
            rest: None,
        },
        Function::Join => SignatureView {
            params: seq![ParamKind::Text, ParamKind::List],
            rest: None,
        },
        Function::Concat => SignatureView {
            params: seq![],
            rest: Some(ParamKind::List),
        },
        Function::Keys | Function::Values => SignatureView {
            params: seq![ParamKind::Dictionary],
            rest: None,
        },
        Function::Contains => SignatureView {
            params: seq![ParamKind::List, ParamKind::Any],
            rest: None,
        },
    }
}

/// The function would look outside.
pub open spec fn is_outside(f: Function) -> bool {
    match f {
        Function::GetEnv | Function::FindInParentFolders | Function::File | Function::Fileexists
        | Function::Templatefile | Function::ReadTerragruntConfig | Function::Jsondecode
        | Function::Yamldecode | Function::RunCmd => true,
        _ => false,
    }
}

// ----------------------------------------------------------------------- calls

/// An empty string.
pub open spec fn empty_string() -> CallView {
    CallView::Ok(ValueView::String(Seq::empty()))
}

/// A directory that a function returns; an empty string where there is none.
pub open spec fn dir_call(dir: Option<Seq<char>>) -> CallView {
    match dir {
        Some(d) => CallView::Ok(ValueView::String(d)),
        None => empty_string(),
    }
}

/// What stands for the result of a function that would look outside: something empty, or the default
/// that the call names; an error where strictness is asked for.
pub open spec fn outside_call(f: Function, args: Seq<ValueView>, strict: bool) -> CallView {
    if strict {
        failed(name_of(f) + "() cannot be evaluated"@)
    } else {
        match f {
            Function::GetEnv => get_env_call(args),
            Function::ReadTerragruntConfig | Function::Jsondecode | Function::Yamldecode => CallView::Ok(
                ValueView::Object(Seq::empty()),
            ),
            Function::Fileexists => CallView::Ok(ValueView::Bool(false)),
            _ => empty_string(),
        }
    }
}

/// The texts behind the first.
pub open spec fn behind_first(notations: Seq<Seq<char>>) -> Seq<Seq<char>> {
    if notations.len() == 0 {
        notations
    } else {
        notations.skip(1)
    }
}

/// What a call comes to. `notations` are how HCL writes the arguments, and `items` how it writes the
/// items of the array that is the second of them; `alike` says of each item of the array that is the
/// first of them whether it equals the second.
pub open spec fn called(
    f: Function,
    args: Seq<ValueView>,
    notations: Seq<Seq<char>>,
    items: Seq<Seq<char>>,
    alike: Seq<bool>,
    around: SurroundingsView,
) -> CallView {
    if is_outside(f) {
        outside_call(f, args, around.strict)
    } else {
        match f {
            Function::Merge => merge_call(args),
            Function::Format => format_call(args, behind_first(notations)),
            Function::Try | Function::Coalesce => CallView::Ok(first_not_null(args)),
            Function::Tostring => tostring_call(args, notation_at(notations, 0)),
            Function::Lookup => lookup_call(args),
            Function::GetRepoRoot => dir_call(around.repo_root),
            Function::GetTerragruntDir => dir_call(Some(around.terragrunt_dir)),
            Function::GetParentTerragruntDir => dir_call(around.parent_dir),
            Function::Trimspace => trimspace_call(args),
            Function::Lower => lower_call(args),
            Function::Upper => upper_call(args),
            Function::Replace => replace_call(args),
            Function::Split => split_call(args),
            Function::Join => join_call(args, items),
            Function::Concat => concat_call(args),
            Function::Length => length_call(args),
            Function::Keys => keys_call(args),
            Function::Values => values_call(args),
            Function::Contains => contains_call(args, alike),
            Function::RegexReplace => regex_replace_call(args),
            Function::Abspath | Function::Pathexpand => passthrough_string_call(args),
            Function::Basename => basename_call(args),
            Function::Dirname => dirname_call(args),
            _ => empty_string(),
        }
    }
}

/// Stands for a function that would look outside.
fn call_outside(f: Function, args: &Vec<HclValue>, strict: bool) -> (res: Result<HclValue, String>)
    requires
        is_outside(f),
    ensures
        call_view(res) == outside_call(f, value_views(args@), strict),
{
    if strict {
        return Err(concat(f.name(), "() cannot be evaluated"));
    }
    match f {
        Function::GetEnv => get_env_func(args),
        Function::ReadTerragruntConfig | Function::Jsondecode | Function::Yamldecode => stub_object_func(),
        Function::Fileexists => false_func(),
        _ => stub_string_func(),
    }
}

/// Calls a function. `notations` are how HCL writes the arguments, and `items` how it writes the
/// items of the array that is the second of them; `alike` says of each item of the array that is the
/// first of them whether it equals the second.
pub fn call_function(
    f: Function,
    args: &Vec<HclValue>,
    notations: &Vec<String>,
    items: &Vec<String>,
    alike: &Vec<bool>,
    around: &Surroundings,
) -> (res: Result<HclValue, String>)
    ensures
        call_view(res) == called(f, value_views(args@), texts(notations@), texts(items@), alike@, around@),
{
    if f.looks_outside() {
        return call_outside(f, args, around.strict);
    }
    match f {
        Function::Merge => merge_func(args),
        Function::Format => {
            let rest = from_second(notations);
            format_func(args, &rest)
        },
        Function::Try => try_func(args),
        Function::Coalesce => coalesce_func(args),
        Function::Tostring => {
            let first = get_notation(notations, 0);
            tostring_func(args, first.as_str())
        },
        Function::Lookup => lookup_func(args),
        Function::GetRepoRoot => dir_func(&around.repo_root),
        Function::GetTerragruntDir => dir_func(&Some(around.terragrunt_dir.clone())),
        Function::GetParentTerragruntDir => dir_func(&around.parent_dir),
        Function::Trimspace => trimspace_func(args),
        Function::Lower => lower_func(args),
        Function::Upper => upper_func(args),
        Function::Replace => replace_func(args),
        Function::Split => split_func(args),
        Function::Join => join_func(args, items),
        Function::Concat => concat_func(args),
        Function::Length => length_func(args),
        Function::Keys => keys_func(args),
        Function::Values => values_func(args),
        Function::Contains => contains_func(args, alike),
        Function::RegexReplace => regex_replace_func(args),
        Function::Abspath => passthrough_string_func(args),
        Function::Pathexpand => passthrough_string_func(args),
        Function::Basename => basename_func(args),
        Function::Dirname => dirname_func(args),
        _ => stub_string_func(),
    }
}

/// The texts behind the first.
fn from_second(v: &Vec<String>) -> (res: Vec<String>)
    ensures
        texts(res@) == behind_first(texts(v@)),
{
    let mut out: Vec<String> = Vec::new();
    let mut i: usize = 1;
    while i < v.len()
        invariant
            1 <= i,
            i <= v@.len() || i == 1,
            out@.len() == i - 1,
            forall|j: int| 0 <= j < out@.len() ==> (#[trigger] out@[j])@ == v@[j + 1]@,
        decreases v@.len() - i,
    {
        out.push(v[i].clone());
        i += 1;
    }
    assert(texts(out@) =~= behind_first(texts(v@)));
    out
}

// ------------------------------------------------------------------------- laws

/// Functions that would look outside never yield anything that is not in the call: without
/// strictness something empty or the default of the call, and with it an error.
pub proof fn law_nothing_comes_from_outside(
    f: Function,
    args: Seq<ValueView>,
    notations: Seq<Seq<char>>,
    items: Seq<Seq<char>>,
    alike: Seq<bool>,
    around: SurroundingsView,
)
    requires
        is_outside(f),
    ensures
        around.strict ==> called(f, args, notations, items, alike, around) is Err,
        !around.strict && f != Function::GetEnv ==> called(f, args, notations, items, alike, around) is Ok,
        !around.strict && f == Function::GetEnv && args.len() > 1 && args[0] is String ==> called(
            f,
            args,
            notations,
            items,
            alike,
            around,
        ) == CallView::Ok(args[1]),
{
}

} // verus!
