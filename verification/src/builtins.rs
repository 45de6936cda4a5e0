//! The functions that expressions in stack files can call.
//!
//! Each takes the values of its arguments. Functions that stand for others which read files or
//! parse documents return an empty value, so that the expression around them can be evaluated.

use crate::syntax::{copy_value, copy_values, HclValue, Number};
#[allow(unused_imports)]
use crate::syntax::{
    entry_views, lemma_array_view, lemma_object_view, value_views, NumberView, ValueView,
};
use crate::text::{
    concat, decimal_text, join, lower, quote, replace_text, same, signed_decimal_text, split_char, split_text, to_chars,
    trim, upper,
};
#[allow(unused_imports)]
use crate::text::{
    decimal, join_with, lowered, opt_text, quoted, replaced, signed_decimal, split_by, split_on, texts, trimmed, uppered,
};
use vstd::prelude::*;

verus! {

/// What a function call comes to: a value, or a message.
pub type CallView = Result<ValueView, Seq<char>>;

/// The view of what a call came to.
pub open spec fn call_view(r: Result<HclValue, String>) -> CallView {
    match r {
        Ok(v) => Ok(v@),
        Err(e) => Err(e@),
    }
}

/// A call that failed.
pub open spec fn failed(message: Seq<char>) -> CallView {
    Err(message)
}

fn fail(message: &str) -> (res: Result<HclValue, String>)
    ensures
        call_view(res) == failed(message@),
{
    Err(message.to_owned())
}

// -------------------------------------------------------------------- notation

/// The notation of a number.
pub open spec fn number_text(n: NumberView) -> Seq<char> {
    match n {
        NumberView::PosInt(u) => decimal(u as nat),
        NumberView::NegInt(i) => signed_decimal(i as int),
        NumberView::Float(t) => t,
    }
}

/// The notation of a number.
pub fn show_number(n: &Number) -> (res: String)
    ensures
        res@ == number_text(n@),
{
    match n {
        Number::PosInt(u) => decimal_text(*u),
        Number::NegInt(i) => signed_decimal_text(*i),
        Number::Float(t) => t.clone(),
    }
}

/// The notation of a boolean.
pub open spec fn bool_text(b: bool) -> Seq<char> {
    if b {
        "true"@
    } else {
        "false"@
    }
}

/// The notation of a boolean.
pub fn show_bool(b: bool) -> (res: String)
    ensures
        res@ == bool_text(b),
{
    if b {
        "true".to_owned()
    } else {
        "false".to_owned()
    }
}

/// The text of a value; an array or an object is written as `notation` says.
pub open spec fn display_text(v: ValueView, notation: Seq<char>) -> Seq<char> {
    match v {
        ValueView::String(t) => t,
        ValueView::Number(n) => number_text(n),
        ValueView::Bool(b) => bool_text(b),
        ValueView::Null => Seq::empty(),
        _ => notation,
    }
}

/// The text of a value. `notation` is how HCL writes the value; it is used for arrays and
/// objects.
pub fn value_to_display_string(value: &HclValue, notation: &str) -> (res: String)
    ensures
        res@ == display_text(value@, notation@),
{
    match value {
        HclValue::String(t) => t.clone(),
        HclValue::Number(n) => show_number(n),
        HclValue::Bool(b) => show_bool(*b),
        HclValue::Null => {
            let t = String::new();
            assert(t@ =~= Seq::<char>::empty());
            t
        },
        _ => notation.to_owned(),
    }
}

/// A value written out with its kind and all that it holds, as messages name it.
pub open spec fn debug_text(v: ValueView) -> Seq<char>
    decreases v, 0int,
{
    match v {
        ValueView::Null => "Null"@,
        ValueView::Bool(b) => "Bool("@ + bool_text(b) + ")"@,
        ValueView::Number(n) => "Number(Number("@ + number_text(n) + "))"@,
        ValueView::String(t) => "String("@ + quoted(t) + ")"@,
        ValueView::Array(items) => "Array(["@ + debug_items(items) + "])"@,
        ValueView::Object(items) => "Object({"@ + debug_entries(items) + "})"@,
    }
}

/// The items of an array written out, with commas between them.
pub open spec fn debug_items(items: Seq<ValueView>) -> Seq<char>
    decreases items, 0int,
{
    if items.len() == 0 {
        Seq::empty()
    } else {
        proof {
            assert(decreases_to!(items => items.drop_last()));
            assert(decreases_to!(items => items[items.len() - 1]));
        }
        debug_items(items.drop_last()) + (if items.len() > 1 {
            ", "@
        } else {
            ""@
        }) + debug_text(items.last())
    }
}

/// The entries of an object written out, with commas between them.
pub open spec fn debug_entries(items: Seq<(Seq<char>, ValueView)>) -> Seq<char>
    decreases items, 0int,
{
    if items.len() == 0 {
        Seq::empty()
    } else {
        proof {
            assert(decreases_to!(items => items.drop_last()));
            assert(decreases_to!(items => items[items.len() - 1]));
            assert(decreases_to!(items.last() => items.last().1));
        }
        debug_entries(items.drop_last()) + (if items.len() > 1 {
            ", "@
        } else {
            ""@
        }) + quoted(items.last().0) + ": "@ + debug_text(items.last().1)
    }
}

/// Appends a value written out with its kind and all that it holds.
pub fn put_debug(out: &mut String, value: &HclValue)
    ensures
        final(out)@ == old(out)@ + debug_text(value@),
    decreases value, 0int,
{
    let ghost start = out@;
    match value {
        HclValue::Null => out.append("Null"),
        HclValue::Bool(b) => {
            out.append("Bool(");
            out.append(show_bool(*b).as_str());
            out.append(")");
        },
        HclValue::Number(n) => {
            out.append("Number(Number(");
            out.append(show_number(n).as_str());
            out.append("))");
        },
        HclValue::String(t) => {
            out.append("String(");
            out.append(quote(t.as_str()).as_str());
            out.append(")");
        },
        HclValue::Array(items) => {
            proof {
                lemma_array_view(*items);
            }
            out.append("Array([");
            put_debug_items(out, items);
            out.append("])");
        },
        HclValue::Object(items) => {
            proof {
                lemma_object_view(*items);
            }
            out.append("Object({");
            put_debug_entries(out, items);
            out.append("})");
        },
    }
    assert(out@ =~= start + debug_text(value@));
}

fn put_debug_items(out: &mut String, items: &Vec<HclValue>)
    ensures
        final(out)@ == old(out)@ + debug_items(value_views(items@)),
    decreases items, 0int,
{
    let ghost start = out@;
    let ghost views = value_views(items@);
    let mut i: usize = 0;
    assert(out@ =~= start + debug_items(views.take(0)));
    while i < items.len()
        invariant
            i <= items@.len(),
            views == value_views(items@),
            out@ == start + debug_items(views.take(i as int)),
        decreases items@.len() - i,
    {
        let ghost now = views.take(i + 1);
        proof {
            assert(now.drop_last() =~= views.take(i as int));
            assert(now.last() == items@[i as int]@);
            assert(decreases_to!(items => items@[i as int]));
        }
        out.append(if i > 0 {
            ", "
        } else {
            ""
        });
        put_debug(out, &items[i]);
        assert(out@ =~= start + debug_items(now));
        i += 1;
    }
    assert(views.take(i as int) =~= views);
}

fn put_debug_entries(out: &mut String, items: &Vec<(String, HclValue)>)
    ensures
        final(out)@ == old(out)@ + debug_entries(entry_views(items@)),
    decreases items, 0int,
{
    let ghost start = out@;
    let ghost views = entry_views(items@);
    let mut i: usize = 0;
    assert(out@ =~= start + debug_entries(views.take(0)));
    while i < items.len()
        invariant
            i <= items@.len(),
            views == entry_views(items@),
            out@ == start + debug_entries(views.take(i as int)),
        decreases items@.len() - i,
    {
        let ghost now = views.take(i + 1);
        proof {
            assert(now.drop_last() =~= views.take(i as int));
            assert(now.last() == (items@[i as int].0@, items@[i as int].1@));
            assert(decreases_to!(items => items@[i as int]));
            assert(decreases_to!(items@[i as int] => items@[i as int].1));
        }
        out.append(if i > 0 {
            ", "
        } else {
            ""
        });
        out.append(quote(items[i].0.as_str()).as_str());
        out.append(": ");
        put_debug(out, &items[i].1);
        assert(out@ =~= start + debug_entries(now));
        i += 1;
    }
    assert(views.take(i as int) =~= views);
}

/// The notation at position `i`; empty where there is none.
pub open spec fn notation_at(notations: Seq<Seq<char>>, i: int) -> Seq<char> {
    if 0 <= i < notations.len() {
        notations[i]
    } else {
        Seq::empty()
    }
}

/// The notation at position `i`; empty where there is none.
pub fn get_notation(notations: &Vec<String>, i: usize) -> (res: String)
    ensures
        res@ == notation_at(texts(notations@), i as int),
{
    if i < notations.len() {
        assert(texts(notations@)[i as int] == notations@[i as int]@);
        notations[i].clone()
    } else {
        let t = String::new();
        assert(t@ =~= Seq::<char>::empty());
        t
    }
}

/// The texts of a list of values.
pub open spec fn display_texts(values: Seq<ValueView>, notations: Seq<Seq<char>>) -> Seq<Seq<char>> {
    Seq::new(values.len(), |i: int| display_text(values[i], notation_at(notations, i)))
}

fn show_values(values: &Vec<HclValue>, notations: &Vec<String>) -> (res: Vec<String>)
    ensures
        texts(res@) == display_texts(value_views(values@), texts(notations@)),
{
    let ghost views = value_views(values@);
    let ghost notes = texts(notations@);
    let mut out: Vec<String> = Vec::new();
    let mut i: usize = 0;
    while i < values.len()
        invariant
            i <= values@.len(),
            views == value_views(values@),
            notes == texts(notations@),
            out@.len() == i,
            forall|j: int| 0 <= j < i ==> (#[trigger] out@[j])@ == display_text(views[j], notation_at(notes, j)),
        decreases values@.len() - i,
    {
        assert(views[i as int] == values@[i as int]@);
        let note = get_notation(notations, i);
        let t = value_to_display_string(&values[i], note.as_str());
        out.push(t);
        i += 1;
    }
    assert(texts(out@) =~= display_texts(views, notes));
    out
}

// ------------------------------------------------------------------ arguments

/// The string that the argument at position `i` is.
pub open spec fn string_arg(args: Seq<ValueView>, i: int) -> Option<Seq<char>> {
    if 0 <= i < args.len() && args[i] is String {
        Some(args[i]->String_0)
    } else {
        None
    }
}

fn get_string(args: &Vec<HclValue>, i: usize) -> (res: Option<String>)
    ensures
        opt_text(res) == string_arg(value_views(args@), i as int),
{
    if i < args.len() {
        assert(value_views(args@)[i as int] == args@[i as int]@);
        match &args[i] {
            HclValue::String(t) => Some(t.clone()),
            _ => None,
        }
    } else {
        None
    }
}

/// The argument at position `i`, or null.
pub open spec fn arg_or_null(args: Seq<ValueView>, i: int) -> ValueView {
    if 0 <= i < args.len() {
        args[i]
    } else {
        ValueView::Null
    }
}

fn get_or_null(args: &Vec<HclValue>, i: usize) -> (res: HclValue)
    ensures
        res@ == arg_or_null(value_views(args@), i as int),
{
    if i < args.len() {
        assert(value_views(args@)[i as int] == args@[i as int]@);
        copy_value(&args[i])
    } else {
        HclValue::Null
    }
}

/// A function of one string.
pub open spec fn on_string(args: Seq<ValueView>, message: Seq<char>, f: spec_fn(Seq<char>) -> Seq<char>) -> CallView {
    match string_arg(args, 0) {
        Some(t) => Ok(ValueView::String(f(t))),
        None => failed(message),
    }
}

// ------------------------------------------------------------------- constants

/// Stands for a function that yields a text: an empty string.
pub fn stub_string_func() -> (res: Result<HclValue, String>)
    ensures
        call_view(res) == CallView::Ok(ValueView::String(Seq::empty())),
{
    let t = String::new();
    assert(t@ =~= Seq::<char>::empty());
    Ok(HclValue::String(t))
}

/// Stands for a function that yields an object: an empty one.
pub fn stub_object_func() -> (res: Result<HclValue, String>)
    ensures
        call_view(res) == CallView::Ok(ValueView::Object(Seq::empty())),
{
    let items: Vec<(String, HclValue)> = Vec::new();
    proof {
        lemma_object_view(items);
        assert(entry_views(items@) =~= Seq::empty());
    }
    Ok(HclValue::Object(items))
}

/// Stands for a question about a file: no.
pub fn false_func() -> (res: Result<HclValue, String>)
    ensures
        call_view(res) == CallView::Ok(ValueView::Bool(false)),
{
    Ok(HclValue::Bool(false))
}

/// A directory that a function of terragrunt returns; an empty string where there is none.
pub fn dir_func(dir: &Option<String>) -> (res: Result<HclValue, String>)
    ensures
        call_view(res) == CallView::Ok(
            ValueView::String(
                match opt_text(*dir) {
                    Some(d) => d,
                    None => Seq::empty(),
                },
            ),
        ),
{
    match dir {
        Some(d) => Ok(HclValue::String(d.clone())),
        None => stub_string_func(),
    }
}

// --------------------------------------------------------------------- strings

/// What `trimspace` comes to.
pub open spec fn trimspace_call(args: Seq<ValueView>) -> CallView {
    on_string(args, "trimspace: expected string"@, |t: Seq<char>| trimmed(t))
}

/// `trimspace(s)`: without the white space around it.
pub fn trimspace_func(args: &Vec<HclValue>) -> (res: Result<HclValue, String>)
    ensures
        call_view(res) == trimspace_call(value_views(args@)),
{
    match get_string(args, 0) {
        Some(t) => Ok(HclValue::String(trim(t.as_str()))),
        None => fail("trimspace: expected string"),
    }
}

/// What `lower` comes to.
pub open spec fn lower_call(args: Seq<ValueView>) -> CallView {
    on_string(args, "lower: expected string"@, |t: Seq<char>| lowered(t))
}

/// `lower(s)`
pub fn lower_func(args: &Vec<HclValue>) -> (res: Result<HclValue, String>)
    ensures
        call_view(res) == lower_call(value_views(args@)),
{
    match get_string(args, 0) {
        Some(t) => Ok(HclValue::String(lower(t.as_str()))),
        None => fail("lower: expected string"),
    }
}

/// What `upper` comes to.
pub open spec fn upper_call(args: Seq<ValueView>) -> CallView {
    on_string(args, "upper: expected string"@, |t: Seq<char>| uppered(t))
}

/// `upper(s)`
pub fn upper_func(args: &Vec<HclValue>) -> (res: Result<HclValue, String>)
    ensures
        call_view(res) == upper_call(value_views(args@)),
{
    match get_string(args, 0) {
        Some(t) => Ok(HclValue::String(upper(t.as_str()))),
        None => fail("upper: expected string"),
    }
}

/// What a function that returns its string comes to.
pub open spec fn passthrough_string_call(args: Seq<ValueView>) -> CallView {
    on_string(args, "expected string"@, |t: Seq<char>| t)
}

/// A function that returns the string it is given.
pub fn passthrough_string_func(args: &Vec<HclValue>) -> (res: Result<HclValue, String>)
    ensures
        call_view(res) == passthrough_string_call(value_views(args@)),
{
    match get_string(args, 0) {
        Some(t) => Ok(HclValue::String(t)),
        None => fail("expected string"),
    }
}

/// What stands behind the last `/`.
pub open spec fn base_of(t: Seq<char>) -> Seq<char> {
    split_on(t, '/').last()
}

/// What stands before the last `/`; nothing where there is none.
pub open spec fn dir_of(t: Seq<char>) -> Seq<char> {
    join_with(split_on(t, '/').drop_last(), "/"@)
}

/// What `basename` comes to.
pub open spec fn basename_call(args: Seq<ValueView>) -> CallView {
    on_string(args, "basename: expected string"@, |t: Seq<char>| base_of(t))
}

/// `basename(path)`: what stands behind the last `/`.
pub fn basename_func(args: &Vec<HclValue>) -> (res: Result<HclValue, String>)
    ensures
        call_view(res) == basename_call(value_views(args@)),
{
    match get_string(args, 0) {
        Some(t) => {
            let mut pieces = split_char(t.as_str(), '/');
            let ghost all = texts(pieces@);
            proof {
                crate::text::lemma_split_nonempty(t@, '/');
                assert(all.last() == pieces@[pieces@.len() - 1]@);
            }
            match pieces.pop() {
                Some(last) => Ok(HclValue::String(last)),
                None => stub_string_func(),
            }
        },
        None => fail("basename: expected string"),
    }
}

/// What `dirname` comes to.
pub open spec fn dirname_call(args: Seq<ValueView>) -> CallView {
    on_string(args, "dirname: expected string"@, |t: Seq<char>| dir_of(t))
}

/// `dirname(path)`: what stands before the last `/`.
pub fn dirname_func(args: &Vec<HclValue>) -> (res: Result<HclValue, String>)
    ensures
        call_view(res) == dirname_call(value_views(args@)),
{
    match get_string(args, 0) {
        Some(t) => {
            let mut pieces = split_char(t.as_str(), '/');
            let ghost all = texts(pieces@);
            proof {
                crate::text::lemma_split_nonempty(t@, '/');
            }
            let last = pieces.pop();
            assert(texts(pieces@) =~= all.drop_last());
            Ok(HclValue::String(join(&pieces, "/")))
        },
        None => fail("dirname: expected string"),
    }
}

/// What replacing comes to, with the messages for each argument that is no string.
pub open spec fn replacing(
    args: Seq<ValueView>,
    first: Seq<char>,
    second: Seq<char>,
    third: Seq<char>,
) -> CallView {
    match (string_arg(args, 0), string_arg(args, 1), string_arg(args, 2)) {
        (Some(s), Some(from), Some(to)) => Ok(ValueView::String(replaced(s, from, to))),
        (None, _, _) => failed(first),
        (_, None, _) => failed(second),
        (_, _, None) => failed(third),
    }
}

/// What `replace` comes to.
pub open spec fn replace_call(args: Seq<ValueView>) -> CallView {
    replacing(
        args,
        "replace: expected string"@,
        "replace: expected string"@,
        "replace: expected string"@,
    )
}

/// `replace(s, from, to)`: every occurrence of `from` becomes `to`.
pub fn replace_func(args: &Vec<HclValue>) -> (res: Result<HclValue, String>)
    ensures
        call_view(res) == replace_call(value_views(args@)),
{
    match (get_string(args, 0), get_string(args, 1), get_string(args, 2)) {
        (Some(s), Some(from), Some(to)) => Ok(
            HclValue::String(replace_text(s.as_str(), from.as_str(), to.as_str())),
        ),
        _ => fail("replace: expected string"),
    }
}

/// What `regex_replace` comes to.
pub open spec fn regex_replace_call(args: Seq<ValueView>) -> CallView {
    replacing(
        args,
        "regex_replace: expected string"@,
        "regex_replace: expected pattern"@,
        "regex_replace: expected replacement"@,
    )
}

/// `regex_replace(s, pattern, replacement)`: the pattern is taken for a plain string.
pub fn regex_replace_func(args: &Vec<HclValue>) -> (res: Result<HclValue, String>)
    ensures
        call_view(res) == regex_replace_call(value_views(args@)),
{
    match (get_string(args, 0), get_string(args, 1), get_string(args, 2)) {
        (Some(s), Some(from), Some(to)) => Ok(
            HclValue::String(replace_text(s.as_str(), from.as_str(), to.as_str())),
        ),
        (None, _, _) => fail("regex_replace: expected string"),
        (_, None, _) => fail("regex_replace: expected pattern"),
        _ => fail("regex_replace: expected replacement"),
    }
}

/// What `split` comes to.
pub open spec fn split_call(args: Seq<ValueView>) -> CallView {
    match (string_arg(args, 0), string_arg(args, 1)) {
        (Some(sep), Some(s)) => CallView::Ok(
            ValueView::Array(split_by(s, sep).map_values(|t: Seq<char>| ValueView::String(t))),
        ),
        (None, _) => failed("split: expected separator string"@),
        (_, None) => failed("split: expected string"@),
    }
}

/// `split(separator, s)`
pub fn split_func(args: &Vec<HclValue>) -> (res: Result<HclValue, String>)
    ensures
        call_view(res) == split_call(value_views(args@)),
{
    match (get_string(args, 0), get_string(args, 1)) {
        (Some(sep), Some(s)) => {
            let pieces = split_text(s.as_str(), sep.as_str());
            let out = strings(pieces);
            Ok(out)
        },
        (None, _) => fail("split: expected separator string"),
        _ => fail("split: expected string"),
    }
}

/// The array of the given strings.
fn strings(items: Vec<String>) -> (res: HclValue)
    ensures
        res@ == ValueView::Array(texts(items@).map_values(|t: Seq<char>| ValueView::String(t))),
{
    let mut out: Vec<HclValue> = Vec::new();
    let ghost all = texts(items@).map_values(|t: Seq<char>| ValueView::String(t));
    let mut i: usize = 0;
    while i < items.len()
        invariant
            i <= items@.len(),
            all == texts(items@).map_values(|t: Seq<char>| ValueView::String(t)),
            out@.len() == i,
            forall|j: int| 0 <= j < i ==> (#[trigger] out@[j])@ == all[j],
        decreases items@.len() - i,
    {
        out.push(HclValue::String(items[i].clone()));
        i += 1;
    }
    proof {
        lemma_array_view(out);
        assert(value_views(out@) =~= all);
    }
    HclValue::Array(out)
}

/// The items of the array at position `i`.
pub open spec fn array_arg(args: Seq<ValueView>, i: int) -> Option<Seq<ValueView>> {
    if 0 <= i < args.len() && args[i] is Array {
        Some(args[i]->Array_0)
    } else {
        None
    }
}

/// What `join` comes to.
pub open spec fn join_call(args: Seq<ValueView>, notations: Seq<Seq<char>>) -> CallView {
    match (string_arg(args, 0), array_arg(args, 1)) {
        (Some(sep), Some(items)) => CallView::Ok(
            ValueView::String(join_with(display_texts(items, notations), sep)),
        ),
        (None, _) => failed("join: expected separator string"@),
        (_, None) => failed("join: expected array"@),
    }
}

/// `join(separator, items)`; `notations` are how HCL writes the items.
pub fn join_func(args: &Vec<HclValue>, notations: &Vec<String>) -> (res: Result<HclValue, String>)
    ensures
        call_view(res) == join_call(value_views(args@), texts(notations@)),
{
    let ghost views = value_views(args@);
    match get_string(args, 0) {
        Some(sep) => {
            if args.len() > 1 {
                assert(views[1] == args@[1]@);
                match &args[1] {
                    HclValue::Array(items) => {
                        proof {
                            lemma_array_view(*items);
                        }
                        let parts = show_values(items, notations);
                        return Ok(HclValue::String(join(&parts, sep.as_str())));
                    },
                    _ => {},
                }
            }
            fail("join: expected array")
        },
        None => fail("join: expected separator string"),
    }
}

// ------------------------------------------------------------ arrays and objects

/// The items of the arrays, one after the other; nothing where one is no array.
pub open spec fn concatenated(args: Seq<ValueView>) -> Option<Seq<ValueView>>
    decreases args.len(),
{
    if args.len() == 0 {
        Some(Seq::empty())
    } else {
        match (concatenated(args.drop_last()), args.last()) {
            (Some(before), ValueView::Array(items)) => Some(before + items),
            _ => None,
        }
    }
}

/// What `concat` comes to.
pub open spec fn concat_call(args: Seq<ValueView>) -> CallView {
    match concatenated(args) {
        Some(items) => CallView::Ok(ValueView::Array(items)),
        None => failed("concat: expected arrays"@),
    }
}

/// `concat(arrays...)`
pub fn concat_func(args: &Vec<HclValue>) -> (res: Result<HclValue, String>)
    ensures
        call_view(res) == concat_call(value_views(args@)),
{
    let ghost views = value_views(args@);
    let mut out: Vec<HclValue> = Vec::new();
    let mut i: usize = 0;
    assert(value_views(out@) =~= Seq::empty());
    while i < args.len()
        invariant
            i <= args@.len(),
            views == value_views(args@),
            concatenated(views.take(i as int)) == Some(value_views(out@)),
        decreases args@.len() - i,
    {
        proof {
            assert(views.take(i + 1).drop_last() =~= views.take(i as int));
            assert(views.take(i + 1).last() == args@[i as int]@);
        }
        match &args[i] {
            HclValue::Array(items) => {
                let ghost before = value_views(out@);
                let mut more = copy_values(items);
                proof {
                    lemma_array_view(*items);
                    assert(value_views(more@) =~= value_views(items@));
                }
                let ghost added = value_views(more@);
                out.append(&mut more);
                assert(value_views(out@) =~= before + added);
            },
            _ => {
                proof {
                    lemma_concatenated_prefix(views, i + 1);
                }
                return fail("concat: expected arrays");
            },
        }
        i += 1;
    }
    proof {
        assert(views.take(i as int) =~= views);
        lemma_array_view(out);
    }
    Ok(HclValue::Array(out))
}

proof fn lemma_concatenated_prefix(args: Seq<ValueView>, k: int)
    requires
        0 <= k <= args.len(),
        concatenated(args.take(k)) is None,
    ensures
        concatenated(args) is None,
    decreases args.len(),
{
    if k == args.len() {
        assert(args.take(k) =~= args);
    } else {
        assert(args.drop_last().take(k) =~= args.take(k));
        lemma_concatenated_prefix(args.drop_last(), k);
    }
}

/// What `length` comes to.
pub open spec fn length_call(args: Seq<ValueView>) -> CallView {
    if args.len() == 0 {
        failed("length: missing argument"@)
    } else {
        match args[0] {
            ValueView::Array(items) => CallView::Ok(ValueView::Number(NumberView::PosInt(items.len() as u64))),
            ValueView::Object(items) => CallView::Ok(ValueView::Number(NumberView::PosInt(items.len() as u64))),
            ValueView::String(t) => CallView::Ok(ValueView::Number(NumberView::PosInt(t.len() as u64))),
            _ => failed("length: unsupported type"@),
        }
    }
}

/// `length(x)`: of an array, an object or a string.
pub fn length_func(args: &Vec<HclValue>) -> (res: Result<HclValue, String>)
    ensures
        call_view(res) == length_call(value_views(args@)),
{
    if args.len() == 0 {
        return fail("length: missing argument");
    }
    let n: usize = match &args[0] {
        HclValue::Array(items) => items.len(),
        HclValue::Object(items) => items.len(),
        HclValue::String(t) => to_chars(t.as_str()).len(),
        _ => {
            return fail("length: unsupported type");
        },
    };
    Ok(HclValue::Number(Number::PosInt(n as u64)))
}

/// The keys of an object's items.
pub open spec fn keys_of(items: Seq<(Seq<char>, ValueView)>) -> Seq<Seq<char>> {
    items.map_values(|p: (Seq<char>, ValueView)| p.0)
}

/// The items of the object that the first argument is.
pub open spec fn object_arg(args: Seq<ValueView>) -> Option<Seq<(Seq<char>, ValueView)>> {
    if args.len() > 0 && args[0] is Object {
        Some(args[0]->Object_0)
    } else {
        None
    }
}

/// What `keys` comes to.
pub open spec fn keys_call(args: Seq<ValueView>) -> CallView {
    match object_arg(args) {
        Some(items) => CallView::Ok(
            ValueView::Array(keys_of(items).map_values(|t: Seq<char>| ValueView::String(t))),
        ),
        None => failed("keys: expected object"@),
    }
}

/// `keys(object)`
pub fn keys_func(args: &Vec<HclValue>) -> (res: Result<HclValue, String>)
    ensures
        call_view(res) == keys_call(value_views(args@)),
{
    if args.len() > 0 {
        assert(value_views(args@)[0] == args@[0]@);
        match &args[0] {
            HclValue::Object(items) => {
                let mut keys: Vec<String> = Vec::new();
                let mut i: usize = 0;
                while i < items.len()
                    invariant
                        i <= items@.len(),
                        keys@.len() == i,
                        forall|j: int| 0 <= j < i ==> (#[trigger] keys@[j])@ == items@[j].0@,
                    decreases items@.len() - i,
                {
                    keys.push(items[i].0.clone());
                    i += 1;
                }
                proof {
                    lemma_object_view(*items);
                    assert(texts(keys@) =~= keys_of(entry_views(items@)));
                }
                return Ok(strings(keys));
            },
            _ => {},
        }
    }
    fail("keys: expected object")
}

/// What `values` comes to.
pub open spec fn values_call(args: Seq<ValueView>) -> CallView {
    match object_arg(args) {
        Some(items) => CallView::Ok(ValueView::Array(items.map_values(|p: (Seq<char>, ValueView)| p.1))),
        None => failed("values: expected object"@),
    }
}

/// `values(object)`
pub fn values_func(args: &Vec<HclValue>) -> (res: Result<HclValue, String>)
    ensures
        call_view(res) == values_call(value_views(args@)),
{
    if args.len() > 0 {
        assert(value_views(args@)[0] == args@[0]@);
        match &args[0] {
            HclValue::Object(items) => {
                let mut out: Vec<HclValue> = Vec::new();
                let mut i: usize = 0;
                while i < items.len()
                    invariant
                        i <= items@.len(),
                        out@.len() == i,
                        forall|j: int| 0 <= j < i ==> (#[trigger] out@[j])@ == items@[j].1@,
                    decreases items@.len() - i,
                {
                    let v = copy_value(&items[i].1);
                    out.push(v);
                    i += 1;
                }
                proof {
                    lemma_object_view(*items);
                    lemma_array_view(out);
                    assert(value_views(out@) =~= entry_views(items@).map_values(|p: (Seq<char>, ValueView)| p.1));
                }
                return Ok(HclValue::Array(out));
            },
            _ => {},
        }
    }
    fail("values: expected object")
}

/// The value of the first item with the given key.
pub open spec fn entry(items: Seq<(Seq<char>, ValueView)>, key: Seq<char>) -> Option<ValueView>
    decreases items.len(),
{
    if items.len() == 0 {
        None
    } else if items[0].0 == key {
        Some(items[0].1)
    } else {
        entry(items.skip(1), key)
    }
}

/// The value of the item with the given key.
pub fn get_entry<'a>(items: &'a Vec<(String, HclValue)>, key: &str) -> (res: Option<&'a HclValue>)
    ensures
        match res {
            Some(v) => entry(entry_views(items@), key@) == Some(v@),
            None => entry(entry_views(items@), key@) is None,
        },
{
    let ghost views = entry_views(items@);
    let mut i: usize = 0;
    assert(views.skip(0) =~= views);
    while i < items.len()
        invariant
            i <= items@.len(),
            views == entry_views(items@),
            entry(views, key@) == entry(views.skip(i as int), key@),
        decreases items@.len() - i,
    {
        proof {
            assert(views.skip(i as int)[0] == (items@[i as int].0@, items@[i as int].1@));
            assert(views.skip(i as int).skip(1) =~= views.skip(i + 1));
        }
        if crate::text::same(items[i].0.as_str(), key) {
            return Some(&items[i].1);
        }
        i += 1;
    }
    None
}

/// The items, with `key` standing for `value`: in its place where it is there, else at the end.
pub open spec fn with_entry(
    items: Seq<(Seq<char>, ValueView)>,
    key: Seq<char>,
    value: ValueView,
) -> Seq<(Seq<char>, ValueView)>
    decreases items.len(),
{
    if items.len() == 0 {
        seq![(key, value)]
    } else if items[0].0 == key {
        items.update(0, (key, value))
    } else {
        seq![items[0]] + with_entry(items.skip(1), key, value)
    }
}

pub proof fn lemma_with_entry_at(items: Seq<(Seq<char>, ValueView)>, k: int, key: Seq<char>, value: ValueView)
    requires
        0 <= k <= items.len(),
        forall|j: int| 0 <= j < k ==> (#[trigger] items[j]).0 != key,
        k < items.len() ==> items[k].0 == key,
    ensures
        with_entry(items, key, value) == (if k < items.len() {
            items.update(k, (key, value))
        } else {
            items.push((key, value))
        }),
    decreases items.len(),
{
    if items.len() == 0 {
        assert(items.push((key, value)) =~= seq![(key, value)]);
    } else if k > 0 {
        assert(items[0].0 != key);
        assert forall|j: int| 0 <= j < k - 1 implies (#[trigger] items.skip(1)[j]).0 != key by {
            assert(items.skip(1)[j] == items[j + 1]);
        }
        lemma_with_entry_at(items.skip(1), k - 1, key, value);
        if k < items.len() {
            assert(items.update(k, (key, value)) =~= seq![items[0]] + items.skip(1).update(k - 1, (key, value)));
        } else {
            assert(items.push((key, value)) =~= seq![items[0]] + items.skip(1).push((key, value)));
        }
    }
}

/// Lets `key` stand for `value`: in its place where it is there, else at the end.
pub fn put_entry(items: &mut Vec<(String, HclValue)>, key: String, value: HclValue)
    ensures
        entry_views(final(items)@) == with_entry(entry_views(old(items)@), key@, value@),
{
    let ghost views = entry_views(items@);
    let mut i: usize = 0;
    while i < items.len() && !(items[i].0 == key)
        invariant
            i <= items@.len(),
            items@ == old(items)@,
            views == entry_views(items@),
            forall|j: int| 0 <= j < i ==> (#[trigger] views[j]).0 != key@,
        decreases items@.len() - i,
    {
        assert(views[i as int].0 == items@[i as int].0@);
        i += 1;
    }
    let ghost k = key@;
    let ghost v = value@;
    proof {
        if i < items@.len() {
            assert(views[i as int].0 == items@[i as int].0@);
        }
        lemma_with_entry_at(views, i as int, k, v);
    }
    if i < items.len() {
        items.set(i, (key, value));
        assert(entry_views(items@) =~= views.update(i as int, (k, v)));
    } else {
        items.push((key, value));
        assert(entry_views(items@) =~= views.push((k, v)));
    }
}

/// `base`, with the items of `more` put into it one by one.
pub open spec fn with_entries(
    base: Seq<(Seq<char>, ValueView)>,
    more: Seq<(Seq<char>, ValueView)>,
) -> Seq<(Seq<char>, ValueView)>
    decreases more.len(),
{
    if more.len() == 0 {
        base
    } else {
        with_entry(with_entries(base, more.drop_last()), more.last().0, more.last().1)
    }
}

/// The objects put into one, later ones over earlier ones; nothing where one is no object.
pub open spec fn merged(args: Seq<ValueView>) -> Option<Seq<(Seq<char>, ValueView)>>
    decreases args.len(),
{
    if args.len() == 0 {
        Some(Seq::empty())
    } else {
        match (merged(args.drop_last()), args.last()) {
            (Some(before), ValueView::Object(items)) => Some(with_entries(before, items)),
            _ => None,
        }
    }
}

fn put_entries(base: &mut Vec<(String, HclValue)>, more: &Vec<(String, HclValue)>)
    ensures
        entry_views(final(base)@) == with_entries(entry_views(old(base)@), entry_views(more@)),
{
    let ghost start = entry_views(base@);
    let ghost views = entry_views(more@);
    let mut i: usize = 0;
    while i < more.len()
        invariant
            i <= more@.len(),
            views == entry_views(more@),
            entry_views(base@) == with_entries(start, views.take(i as int)),
        decreases more@.len() - i,
    {
        proof {
            assert(views.take(i + 1).drop_last() =~= views.take(i as int));
            assert(views.take(i + 1).last() == (more@[i as int].0@, more@[i as int].1@));
        }
        put_entry(base, more[i].0.clone(), copy_value(&more[i].1));
        i += 1;
    }
    assert(views.take(i as int) =~= views);
}

/// What `merge` comes to.
pub open spec fn merge_call(args: Seq<ValueView>) -> CallView {
    match merged(args) {
        Some(items) => CallView::Ok(ValueView::Object(items)),
        None => failed("merge: expected object arguments"@),
    }
}

/// `merge(objects...)`: later objects win.
pub fn merge_func(args: &Vec<HclValue>) -> (res: Result<HclValue, String>)
    ensures
        call_view(res) == merge_call(value_views(args@)),
{
    let ghost views = value_views(args@);
    let mut out: Vec<(String, HclValue)> = Vec::new();
    let mut i: usize = 0;
    assert(entry_views(out@) =~= Seq::empty());
    while i < args.len()
        invariant
            i <= args@.len(),
            views == value_views(args@),
            merged(views.take(i as int)) == Some(entry_views(out@)),
        decreases args@.len() - i,
    {
        proof {
            assert(views.take(i + 1).drop_last() =~= views.take(i as int));
            assert(views.take(i + 1).last() == args@[i as int]@);
        }
        match &args[i] {
            HclValue::Object(items) => {
                proof {
                    lemma_object_view(*items);
                }
                put_entries(&mut out, items);
            },
            _ => {
                proof {
                    lemma_merged_prefix(views, i + 1);
                }
                return fail("merge: expected object arguments");
            },
        }
        i += 1;
    }
    proof {
        assert(views.take(i as int) =~= views);
        lemma_object_view(out);
    }
    Ok(HclValue::Object(out))
}

proof fn lemma_merged_prefix(args: Seq<ValueView>, k: int)
    requires
        0 <= k <= args.len(),
        merged(args.take(k)) is None,
    ensures
        merged(args) is None,
    decreases args.len(),
{
    if k == args.len() {
        assert(args.take(k) =~= args);
    } else {
        assert(args.drop_last().take(k) =~= args.take(k));
        lemma_merged_prefix(args.drop_last(), k);
    }
}

/// What `lookup` comes to.
pub open spec fn lookup_call(args: Seq<ValueView>) -> CallView {
    if args.len() == 0 {
        failed("lookup: missing map"@)
    } else if args.len() == 1 {
        failed("lookup: missing key"@)
    } else {
        match (object_arg(args), string_arg(args, 1)) {
            (None, _) => failed("lookup: first argument must be an object"@),
            (_, None) => failed("lookup: key must be a string"@),
            (Some(items), Some(key)) => CallView::Ok(
                match entry(items, key) {
                    Some(v) => v,
                    None => arg_or_null(args, 2),
                },
            ),
        }
    }
}

/// `lookup(object, key, default)`
pub fn lookup_func(args: &Vec<HclValue>) -> (res: Result<HclValue, String>)
    ensures
        call_view(res) == lookup_call(value_views(args@)),
{
    if args.len() == 0 {
        return fail("lookup: missing map");
    }
    if args.len() == 1 {
        return fail("lookup: missing key");
    }
    assert(value_views(args@)[0] == args@[0]@);
    match &args[0] {
        HclValue::Object(items) => match get_string(args, 1) {
            Some(key) => {
                proof {
                    lemma_object_view(*items);
                }
                match get_entry(items, key.as_str()) {
                    Some(v) => Ok(copy_value(v)),
                    None => Ok(get_or_null(args, 2)),
                }
            },
            None => fail("lookup: key must be a string"),
        },
        _ => fail("lookup: first argument must be an object"),
    }
}

/// The first of the values that is not null; null where there is none.
pub open spec fn first_not_null(args: Seq<ValueView>) -> ValueView
    decreases args.len(),
{
    if args.len() == 0 {
        ValueView::Null
    } else if args[0] is Null {
        first_not_null(args.skip(1))
    } else {
        args[0]
    }
}

/// `coalesce(values...)`, and `try(values...)` on values: the first that is not null.
pub fn coalesce_func(args: &Vec<HclValue>) -> (res: Result<HclValue, String>)
    ensures
        call_view(res) == CallView::Ok(first_not_null(value_views(args@))),
{
    let ghost views = value_views(args@);
    let mut i: usize = 0;
    assert(views.skip(0) =~= views);
    while i < args.len()
        invariant
            i <= args@.len(),
            views == value_views(args@),
            first_not_null(views) == first_not_null(views.skip(i as int)),
        decreases args@.len() - i,
    {
        proof {
            assert(views.skip(i as int)[0] == args@[i as int]@);
            assert(views.skip(i as int).skip(1) =~= views.skip(i + 1));
        }
        match &args[i] {
            HclValue::Null => {},
            v => {
                return Ok(copy_value(v));
            },
        }
        i += 1;
    }
    Ok(HclValue::Null)
}

/// `try(values...)` on values that could be evaluated: the first that is not null.
pub fn try_func(args: &Vec<HclValue>) -> (res: Result<HclValue, String>)
    ensures
        call_view(res) == CallView::Ok(first_not_null(value_views(args@))),
{
    coalesce_func(args)
}

/// What `tostring` comes to.
pub open spec fn tostring_call(args: Seq<ValueView>, notation: Seq<char>) -> CallView {
    if args.len() == 0 {
        failed("tostring: missing argument"@)
    } else {
        CallView::Ok(ValueView::String(display_text(args[0], notation)))
    }
}

/// `tostring(x)`; `notation` is how HCL writes it.
pub fn tostring_func(args: &Vec<HclValue>, notation: &str) -> (res: Result<HclValue, String>)
    ensures
        call_view(res) == tostring_call(value_views(args@), notation@),
{
    if args.len() == 0 {
        return fail("tostring: missing argument");
    }
    Ok(HclValue::String(value_to_display_string(&args[0], notation)))
}

/// What `get_env` comes to.
pub open spec fn get_env_call(args: Seq<ValueView>) -> CallView {
    match string_arg(args, 0) {
        None => failed("get_env: first argument must be a string"@),
        Some(name) => CallView::Ok(
            if args.len() > 1 {
                args[1]
            } else {
                ValueView::String(Seq::empty())
            },
        ),
    }
}

/// `get_env(name, default)`: the environment is not looked into, so this is the default, or an empty
/// string where there is none.
pub fn get_env_func(args: &Vec<HclValue>) -> (res: Result<HclValue, String>)
    ensures
        call_view(res) == get_env_call(value_views(args@)),
{
    match get_string(args, 0) {
        Some(name) => {
            if args.len() > 1 {
                assert(value_views(args@)[1] == args@[1]@);
                Ok(copy_value(&args[1]))
            } else {
                stub_string_func()
            }
        },
        None => fail("get_env: first argument must be a string"),
    }
}

// ---------------------------------------------------------------------- members

/// What `contains` comes to. `alike` says of each item of the array whether it equals the value.
pub open spec fn contains_call(args: Seq<ValueView>, alike: Seq<bool>) -> CallView {
    match array_arg(args, 0) {
        Some(items) => CallView::Ok(ValueView::Bool(alike.contains(true))),
        None => failed("contains: expected array"@),
    }
}

/// `contains(array, value)`: whether the value is in the array. `alike` says of each item of the
/// array whether it equals the value. HCL decides that: it compares numbers of different kinds as
/// floating point numbers.
pub fn contains_func(args: &Vec<HclValue>, alike: &Vec<bool>) -> (res: Result<HclValue, String>)
    ensures
        call_view(res) == contains_call(value_views(args@), alike@),
{
    if args.len() > 0 {
        assert(value_views(args@)[0] == args@[0]@);
        match &args[0] {
            HclValue::Array(_) => {
                let mut i: usize = 0;
                while i < alike.len()
                    invariant
                        i <= alike@.len(),
                        forall|j: int| 0 <= j < i ==> !#[trigger] alike@[j],
                        array_arg(value_views(args@), 0) is Some,
                    decreases alike@.len() - i,
                {
                    if alike[i] {
                        assert(alike@[i as int]);
                        return Ok(HclValue::Bool(true));
                    }
                    i += 1;
                }
                return Ok(HclValue::Bool(false));
            },
            _ => {},
        }
    }
    fail("contains: expected array")
}

// ------------------------------------------------------------------ formatting

/// `prefix` in front of what formatting comes to.
pub open spec fn in_front(prefix: Seq<char>, r: Result<Seq<char>, Seq<char>>) -> Result<Seq<char>, Seq<char>> {
    match r {
        Ok(t) => Ok(prefix + t),
        Err(e) => Err(e),
    }
}

/// `fmt`, with each verb replaced by the next of `args`.
pub open spec fn formatted(fmt: Seq<char>, args: Seq<Seq<char>>) -> Result<Seq<char>, Seq<char>>
    decreases fmt.len(),
{
    if fmt.len() == 0 {
        Ok(Seq::empty())
    } else if fmt[0] != '%' {
        in_front(seq![fmt[0]], formatted(fmt.skip(1), args))
    } else if fmt.len() == 1 {
        Err("format: trailing %"@)
    } else if fmt[1] == '%' {
        in_front(seq!['%'], formatted(fmt.skip(2), args))
    } else if fmt[1] == 's' || fmt[1] == 'v' || fmt[1] == 'd' {
        if args.len() == 0 {
            Err("format: too few arguments"@)
        } else {
            in_front(args[0], formatted(fmt.skip(2), args.skip(1)))
        }
    } else {
        Err("format: unsupported verb %"@.push(fmt[1]))
    }
}

fn format_text(fmt: &str, args: &Vec<String>) -> (res: Result<String, String>)
    ensures
        match res {
            Ok(t) => formatted(fmt@, texts(args@)) == Result::<Seq<char>, Seq<char>>::Ok(t@),
            Err(e) => formatted(fmt@, texts(args@)) == Result::<Seq<char>, Seq<char>>::Err(e@),
        },
{
    let fc = to_chars(fmt);
    let ghost all = texts(args@);
    let n: usize = fc.len();
    let mut out = String::new();
    let mut i: usize = 0;
    let mut k: usize = 0;
    proof {
        assert(fc@.skip(0) =~= fc@);
        assert(all.skip(0) =~= all);
        let r = formatted(fmt@, all);
        assert(out@ =~= Seq::<char>::empty());
        match r {
            Ok(t) => {
                assert(out@ + t =~= t);
            },
            Err(e) => {},
        }
    }
    while i < n
        invariant
            fc@ == fmt@,
            n == fc@.len(),
            i <= n,
            all == texts(args@),
            k <= args@.len(),
            formatted(fmt@, all) == in_front(out@, formatted(fc@.skip(i as int), all.skip(k as int))),
        decreases n - i,
    {
        let ghost rest = fc@.skip(i as int);
        let ghost left = all.skip(k as int);
        let ghost before = out@;
        proof {
            assert(rest[0] == fc@[i as int]);
            assert(rest.skip(1) =~= fc@.skip(i + 1));
        }
        if fc[i] != '%' {
            out.push(fc[i]);
            proof {
                lemma_in_front(before, seq![fc@[i as int]], formatted(rest.skip(1), left));
                assert(before + seq![fc@[i as int]] =~= out@);
            }
            i += 1;
        } else if i + 1 >= n {
            return Err("format: trailing %".to_owned());
        } else {
            let verb: char = fc[i + 1];
            proof {
                assert(rest[1] == verb);
                assert(rest.skip(2) =~= fc@.skip(i + 2));
            }
            if verb == '%' {
                out.push('%');
                proof {
                    lemma_in_front(before, seq!['%'], formatted(rest.skip(2), left));
                    assert(before + seq!['%'] =~= out@);
                }
            } else if verb == 's' || verb == 'v' || verb == 'd' {
                if k >= args.len() {
                    return Err("format: too few arguments".to_owned());
                }
                out.append(args[k].as_str());
                proof {
                    assert(left[0] == args@[k as int]@);
                    assert(left.skip(1) =~= all.skip(k + 1));
                    lemma_in_front(before, left[0], formatted(rest.skip(2), left.skip(1)));
                }
                k += 1;
            } else {
                let mut message = "format: unsupported verb %".to_owned();
                message.push(verb);
                return Err(message);
            }
            i += 2;
        }
    }
    proof {
        assert(fc@.skip(i as int) =~= Seq::<char>::empty());
        assert(out@ + Seq::<char>::empty() =~= out@);
    }
    Ok(out)
}

proof fn lemma_in_front(a: Seq<char>, b: Seq<char>, r: Result<Seq<char>, Seq<char>>)
    ensures
        in_front(a, in_front(b, r)) == in_front(a + b, r),
{
    match r {
        Ok(t) => {
            assert(a + (b + t) =~= a + b + t);
        },
        Err(e) => {},
    }
}

/// What `format` comes to.
pub open spec fn format_call(args: Seq<ValueView>, notations: Seq<Seq<char>>) -> CallView {
    match string_arg(args, 0) {
        None => failed("format: first argument must be a string"@),
        Some(fmt) => match formatted(fmt, display_texts(args.skip(1), notations)) {
            Ok(t) => CallView::Ok(ValueView::String(t)),
            Err(e) => failed(e),
        },
    }
}

/// `format(fmt, args...)`; `notations` are how HCL writes the arguments behind the first.
pub fn format_func(args: &Vec<HclValue>, notations: &Vec<String>) -> (res: Result<HclValue, String>)
    ensures
        call_view(res) == format_call(value_views(args@), texts(notations@)),
{
    match get_string(args, 0) {
        Some(fmt) => {
            let mut rest: Vec<HclValue> = Vec::new();
            let mut i: usize = 1;
            while i < args.len()
                invariant
                    1 <= i <= args@.len(),
                    rest@.len() == i - 1,
                    forall|j: int| 0 <= j < i - 1 ==> (#[trigger] rest@[j])@ == args@[j + 1]@,
                decreases args@.len() - i,
            {
                let v = copy_value(&args[i]);
                rest.push(v);
                i += 1;
            }
            assert(value_views(rest@) =~= value_views(args@).skip(1));
            let shown = show_values(&rest, notations);
            match format_text(fmt.as_str(), &shown) {
                Ok(t) => Ok(HclValue::String(t)),
                Err(e) => Err(e),
            }
        },
        None => fail("format: first argument must be a string"),
    }
}

// ------------------------------------------------------------------------- laws

/// No key stands twice.
pub open spec fn distinct_keys(items: Seq<(Seq<char>, ValueView)>) -> bool {
    keys_of(items).no_duplicates()
}

pub proof fn lemma_entry_put(
    items: Seq<(Seq<char>, ValueView)>,
    key: Seq<char>,
    value: ValueView,
    k: Seq<char>,
)
    ensures
        entry(with_entry(items, key, value), k) == (if k == key {
            Some(value)
        } else {
            entry(items, k)
        }),
    decreases items.len(),
{
    reveal_with_fuel(entry, 2);
    let after = with_entry(items, key, value);
    if items.len() == 0 {
        assert(after.skip(1) =~= Seq::empty());
    } else if items[0].0 == key {
        assert(after.skip(1) =~= items.skip(1));
    } else {
        lemma_entry_put(items.skip(1), key, value, k);
        assert(after.skip(1) =~= with_entry(items.skip(1), key, value));
    }
}

proof fn lemma_entry_last(items: Seq<(Seq<char>, ValueView)>, k: Seq<char>)
    requires
        distinct_keys(items),
        items.len() > 0,
    ensures
        distinct_keys(items.drop_last()),
        entry(items, k) == (if items.last().0 == k {
            Some(items.last().1)
        } else {
            entry(items.drop_last(), k)
        }),
    decreases items.len(),
{
    reveal_with_fuel(entry, 2);
    let keys = keys_of(items);
    let rest = items.drop_last();
    assert forall|i: int, j: int| 0 <= i < rest.len() && 0 <= j < rest.len() && i != j implies keys_of(rest)[i]
        != keys_of(rest)[j] by {
        assert(keys[i] != keys[j]);
    }
    if items.len() == 1 {
        assert(items.skip(1) =~= Seq::empty());
    } else {
        let tail = items.skip(1);
        assert forall|i: int, j: int| 0 <= i < tail.len() && 0 <= j < tail.len() && i != j implies keys_of(tail)[i]
            != keys_of(tail)[j] by {
            assert(keys[i + 1] != keys[j + 1]);
        }
        lemma_entry_last(tail, k);
        assert(tail.drop_last() =~= rest.skip(1));
        assert(keys[0] != keys[items.len() - 1]);
    }
}

/// In `merge(a, b)`, a key of `b` stands for what it stands for in `b`, any other key for what
/// it stands for in `a`.
pub proof fn law_merge_later_wins(
    a: Seq<(Seq<char>, ValueView)>,
    b: Seq<(Seq<char>, ValueView)>,
    k: Seq<char>,
)
    requires
        distinct_keys(a),
        distinct_keys(b),
    ensures
        merged(seq![ValueView::Object(a), ValueView::Object(b)]) is Some,
        entry(merged(seq![ValueView::Object(a), ValueView::Object(b)])->0, k) == (match entry(b, k) {
            Some(v) => Some(v),
            None => entry(a, k),
        }),
{
    let args = seq![ValueView::Object(a), ValueView::Object(b)];
    let one = args.drop_last();
    assert(one =~= seq![ValueView::Object(a)]);
    assert(one.drop_last() =~= Seq::empty());
    reveal_with_fuel(merged, 3);
    lemma_entry_over(Seq::empty(), a, k);
    lemma_entry_over(with_entries(Seq::empty(), a), b, k);
}

proof fn lemma_entry_over(base: Seq<(Seq<char>, ValueView)>, more: Seq<(Seq<char>, ValueView)>, k: Seq<char>)
    requires
        distinct_keys(more),
    ensures
        entry(with_entries(base, more), k) == (match entry(more, k) {
            Some(v) => Some(v),
            None => entry(base, k),
        }),
    decreases more.len(),
{
    if more.len() > 0 {
        lemma_entry_last(more, k);
        lemma_entry_over(base, more.drop_last(), k);
        lemma_entry_put(with_entries(base, more.drop_last()), more.last().0, more.last().1, k);
    }
}

} // verus!
