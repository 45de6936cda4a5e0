//! What holds of the functions that expressions can call.

#[allow(unused_imports)]
use crate::builtins::{
    arg_or_null, base_of, basename_call, bool_text, concat_call, concatenated, contains_call, debug_items, debug_text, dir_of, dirname_call,
    display_text, display_texts, entry, first_not_null, format_call, formatted, get_env_call, in_front, join_call,
    keys_call, length_call, lookup_call, lower_call, merge_call, notation_at, number_text, passthrough_string_call,
    regex_replace_call, replace_call, split_call, string_arg, tostring_call, trimspace_call, upper_call, values_call, CallView,
};
#[allow(unused_imports)]
use crate::path::{lemma_pieces_free, lemma_split_concat, lemma_split_none};
#[allow(unused_imports)]
use crate::syntax::{NumberView, ValueView};
#[allow(unused_imports)]
use crate::text::{
    begins_with, decimal, digit, holds_text, is_space, join_with, lemma_split_nonempty, lowered, occurs_at, quoted, replaced,
    signed_decimal, split_by, split_from, split_on, trimmed, trimmed_end, trimmed_start, uppered,
};
use vstd::prelude::*;

verus! {

// ----------------------------------------------------------------------- format

/// Text without `%` is put out as it is, and changes nothing about what comes behind it.
pub proof fn law_format_keeps_text(text: Seq<char>, rest: Seq<char>, args: Seq<Seq<char>>)
    requires
        !text.contains('%'),
    ensures
        formatted(text + rest, args) == (match formatted(rest, args) {
            Ok(t) => Ok::<Seq<char>, Seq<char>>(text + t),
            Err(e) => Err(e),
        }),
    decreases text.len(),
{
    if text.len() == 0 {
        assert(text + rest =~= rest);
        if formatted(rest, args) is Ok {
            assert(text + formatted(rest, args)->Ok_0 =~= formatted(rest, args)->Ok_0);
        }
    } else {
        let tail = text.skip(1);
        assert(text.contains(text[0]));
        assert(!tail.contains('%')) by {
            if tail.contains('%') {
                let i = choose|i: int| 0 <= i < tail.len() && tail[i] == '%';
                assert(text[i + 1] == '%');
            }
        }
        assert((text + rest).skip(1) =~= tail + rest);
        law_format_keeps_text(tail, rest, args);
        if formatted(rest, args) is Ok {
            assert(seq![text[0]] + (tail + formatted(rest, args)->Ok_0) =~= text + formatted(rest, args)->Ok_0);
        }
    }
}

/// A verb takes the first argument, and what comes behind it takes the others.
pub proof fn law_verb_takes_next_argument(verb: char, rest: Seq<char>, arg: Seq<char>, args: Seq<Seq<char>>)
    requires
        verb == 's' || verb == 'v' || verb == 'd',
    ensures
        formatted(seq!['%', verb] + rest, seq![arg] + args) == (match formatted(rest, args) {
            Ok(t) => Ok::<Seq<char>, Seq<char>>(arg + t),
            Err(e) => Err(e),
        }),
        formatted(seq!['%', verb] + rest, Seq::empty()) is Err,
{
    let fmt = seq!['%', verb] + rest;
    assert(fmt.skip(2) =~= rest);
    assert((seq![arg] + args).skip(1) =~= args);
}

/// `%%` is a percent sign, and takes no argument; a `%` in front of anything else but a verb, or of
/// nothing, is refused.
pub proof fn law_other_percents(c: char, rest: Seq<char>, args: Seq<Seq<char>>)
    ensures
        formatted(seq!['%', '%'] + rest, args) == (match formatted(rest, args) {
            Ok(t) => Ok::<Seq<char>, Seq<char>>(seq!['%'] + t),
            Err(e) => Err(e),
        }),
        formatted(seq!['%'], args) is Err,
        c != '%' && c != 's' && c != 'v' && c != 'd' ==> formatted(seq!['%', c] + rest, args) is Err,
{
    assert((seq!['%', '%'] + rest).skip(2) =~= rest);
}

/// The texts between verbs, with a verb behind each.
pub open spec fn with_verbs(between: Seq<Seq<char>>, verbs: Seq<char>) -> Seq<char>
    decreases between.len(),
{
    if between.len() == 0 {
        Seq::empty()
    } else {
        between[0] + seq!['%', verbs[0]] + with_verbs(between.skip(1), verbs.skip(1))
    }
}

/// The texts between arguments, with an argument behind each.
pub open spec fn with_args(between: Seq<Seq<char>>, args: Seq<Seq<char>>) -> Seq<char>
    decreases between.len(),
{
    if between.len() == 0 {
        Seq::empty()
    } else {
        between[0] + args[0] + with_args(between.skip(1), args.skip(1))
    }
}

/// The n-th verb is replaced by the n-th argument, whatever texts stand between the verbs and whatever
/// verbs they are; arguments beyond the verbs are left out.
pub proof fn law_verbs_take_arguments_in_turn(
    between: Seq<Seq<char>>,
    verbs: Seq<char>,
    end: Seq<char>,
    args: Seq<Seq<char>>,
)
    requires
        verbs.len() == between.len(),
        args.len() >= between.len(),
        forall|i: int| 0 <= i < between.len() ==> !(#[trigger] between[i]).contains('%'),
        forall|i: int| 0 <= i < verbs.len() ==> #[trigger] verbs[i] == 's' || verbs[i] == 'v' || verbs[i] == 'd',
        !end.contains('%'),
    ensures
        formatted(with_verbs(between, verbs) + end, args) == Ok::<Seq<char>, Seq<char>>(with_args(between, args) + end),
    decreases between.len(),
{
    if between.len() == 0 {
        law_format_keeps_text(end, Seq::empty(), args);
        assert(end + Seq::<char>::empty() =~= end);
        assert(with_verbs(between, verbs) + end =~= end);
        assert(with_args(between, args) + end =~= end);
    } else {
        let b = between.skip(1);
        let v = verbs.skip(1);
        let a = args.skip(1);
        assert forall|i: int| 0 <= i < b.len() implies !(#[trigger] b[i]).contains('%') by {
            assert(b[i] == between[i + 1]);
        }
        assert forall|i: int| 0 <= i < v.len() implies #[trigger] v[i] == 's' || v[i] == 'v' || v[i] == 'd' by {
            assert(v[i] == verbs[i + 1]);
        }
        law_verbs_take_arguments_in_turn(b, v, end, a);
        let rest = with_verbs(b, v) + end;
        assert(verbs[0] == 's' || verbs[0] == 'v' || verbs[0] == 'd');
        law_verb_takes_next_argument(verbs[0], rest, args[0], a);
        assert(seq![args[0]] + a =~= args);
        assert(!between[0].contains('%'));
        law_format_keeps_text(between[0], seq!['%', verbs[0]] + rest, args);
        assert(with_verbs(between, verbs) + end =~= between[0] + (seq!['%', verbs[0]] + rest));
        assert(between[0] + (args[0] + (with_args(b, a) + end)) =~= with_args(between, args) + end);
    }
}

/// Two verbs of a format string are replaced by the first and the second argument behind it, as they
/// are shown.
pub proof fn law_format_shows_arguments(c: Seq<char>, x: ValueView, y: ValueView, notations: Seq<Seq<char>>)
    requires
        !c.contains('%'),
        notations.len() == 2,
    ensures
        format_call(
            seq![ValueView::String(seq!['%', 's'] + c + seq!['%', 's']), x, y],
            notations,
        ) == CallView::Ok(ValueView::String(display_text(x, notations[0]) + c + display_text(y, notations[1]))),
{
    let fmt = seq!['%', 's'] + c + seq!['%', 's'];
    let args = seq![ValueView::String(fmt), x, y];
    let a = display_text(x, notations[0]);
    let b = display_text(y, notations[1]);
    assert(display_texts(args.skip(1), notations) =~= seq![a] + seq![b]);
    assert(fmt =~= seq!['%', 's'] + (c + seq!['%', 's']));
    law_verb_takes_next_argument('s', c + seq!['%', 's'], a, seq![b]);
    law_format_keeps_text(c, seq!['%', 's'], seq![b]);
    assert(seq!['%', 's'] + Seq::<char>::empty() =~= seq!['%', 's']);
    assert(seq![b] + Seq::<Seq<char>>::empty() =~= seq![b]);
    law_verb_takes_next_argument('s', Seq::empty(), b, Seq::empty());
    assert(b + Seq::<char>::empty() =~= b);
    assert(a + (c + b) =~= a + c + b);
}

// -------------------------------------------------------------- splitting, joining

proof fn lemma_join_push(parts: Seq<Seq<char>>, last: Seq<char>, sep: Seq<char>)
    requires
        parts.len() > 0,
    ensures
        join_with(parts.push(last), sep) == join_with(parts, sep) + sep + last,
{
    assert(parts.push(last).drop_last() =~= parts);
}

proof fn lemma_join_front(first: Seq<char>, parts: Seq<Seq<char>>, sep: Seq<char>)
    requires
        parts.len() > 0,
    ensures
        join_with(seq![first] + parts, sep) == first + sep + join_with(parts, sep),
    decreases parts.len(),
{
    let all = seq![first] + parts;
    if parts.len() == 1 {
        assert(all.drop_last() =~= seq![first]);
        assert(join_with(seq![first], sep) == first);
        assert(join_with(parts, sep) == parts[0]);
        assert(all.last() == parts[0]);
    } else {
        assert(all.drop_last() =~= seq![first] + parts.drop_last());
        lemma_join_front(first, parts.drop_last(), sep);
        assert(first + sep + join_with(parts.drop_last(), sep) + sep + parts.last() =~= first + sep + (join_with(
            parts.drop_last(),
            sep,
        ) + sep + parts.last()));
    }
}

/// What is cut at each `c` holds no `c` in any piece, and gives the text back when the pieces are
/// joined with `c`.
pub proof fn law_cut_and_joined(s: Seq<char>, c: char)
    ensures
        join_with(split_on(s, c), seq![c]) == s,
        forall|i: int| 0 <= i < split_on(s, c).len() ==> !(#[trigger] split_on(s, c)[i]).contains(c),
    decreases s.len(),
{
    lemma_pieces_free(s, c);
    if s.len() == 0 {
        assert(split_on(s, c) =~= seq![Seq::<char>::empty()]);
        assert(join_with(split_on(s, c), seq![c]) =~= s);
    } else {
        let rest = s.drop_last();
        let before = split_on(rest, c);
        lemma_split_nonempty(rest, c);
        law_cut_and_joined(rest, c);
        if s.last() == c {
            lemma_join_push(before, Seq::empty(), seq![c]);
            assert(rest + seq![c] + Seq::<char>::empty() =~= s);
        } else {
            let last = before.last().push(s.last());
            let front = before.drop_last();
            assert(before.update(before.len() - 1, last) =~= front.push(last));
            assert(before =~= front.push(before.last()));
            if front.len() > 0 {
                lemma_join_push(front, last, seq![c]);
                lemma_join_push(front, before.last(), seq![c]);
                assert(join_with(front, seq![c]) + seq![c] + last =~= rest.push(s.last()));
            } else {
                assert(rest =~= before.last());
                assert(front.push(last) =~= seq![last]);
            }
            assert(rest.push(s.last()) =~= s);
        }
    }
}

/// What `split` cuts, `join` with the same separator puts together again.
pub proof fn law_split_and_joined(s: Seq<char>, sep: Seq<char>)
    requires
        sep.len() > 0,
    ensures
        join_with(split_by(s, sep), sep) == s,
        split_by(s, sep).len() > 0,
{
    lemma_split_from(s, sep, Seq::empty());
    assert(Seq::<char>::empty() + s =~= s);
}

proof fn lemma_split_from(s: Seq<char>, sep: Seq<char>, cur: Seq<char>)
    requires
        sep.len() > 0,
    ensures
        split_from(s, sep, cur).len() > 0,
        join_with(split_from(s, sep, cur), sep) == cur + s,
    decreases s.len(),
{
    if s.len() >= sep.len() {
        if begins_with(s, sep) {
            let rest = s.skip(sep.len() as int);
            lemma_split_from(rest, sep, Seq::empty());
            lemma_join_front(cur, split_from(rest, sep, Seq::empty()), sep);
            assert(s.subrange(0, sep.len() as int) == sep);
            assert(cur + sep + (Seq::<char>::empty() + rest) =~= cur + s);
        } else {
            lemma_split_from(s.skip(1), sep, cur.push(s[0]));
            assert(cur.push(s[0]) + s.skip(1) =~= cur + s);
        }
    }
}

proof fn lemma_replaced_cur(s: Seq<char>, from: Seq<char>, to: Seq<char>, cur: Seq<char>)
    requires
        from.len() > 0,
    ensures
        split_from(s, from, cur).len() > 0,
        join_with(split_from(s, from, cur), to) == cur + join_with(split_from(s, from, Seq::empty()), to),
    decreases s.len(),
{
    let none = Seq::<char>::empty();
    lemma_split_from(s, from, cur);
    lemma_split_from(s, from, none);
    if s.len() < from.len() {
        assert(none + s =~= s);
        assert(join_with(seq![cur + s], to) == cur + s);
        assert(join_with(seq![none + s], to) == none + s);
    } else if begins_with(s, from) {
        let rest = split_from(s.skip(from.len() as int), from, none);
        lemma_split_from(s.skip(from.len() as int), from, none);
        lemma_join_front(cur, rest, to);
        lemma_join_front(none, rest, to);
        assert(cur + to + join_with(rest, to) =~= cur + (none + to + join_with(rest, to)));
    } else {
        lemma_replaced_cur(s.skip(1), from, to, cur.push(s[0]));
        lemma_replaced_cur(s.skip(1), from, to, none.push(s[0]));
        let r = join_with(split_from(s.skip(1), from, none), to);
        assert(cur.push(s[0]) + r =~= cur + (none.push(s[0]) + r));
    }
}

/// `replace` puts the replacement in for what stands in front, and goes on behind it; where it does not
/// stand in front, the first character stays, and `replace` goes on behind that; and nothing is left
/// of an empty text.
pub proof fn law_replaced_from_the_left(s: Seq<char>, from: Seq<char>, to: Seq<char>)
    requires
        from.len() > 0,
    ensures
        replaced(from + s, from, to) == to + replaced(s, from, to),
        s.len() > 0 && !begins_with(s, from) ==> replaced(s, from, to) == seq![s[0]] + replaced(s.skip(1), from, to),
        replaced(Seq::empty(), from, to) == Seq::<char>::empty(),
        !holds_text(s, from) ==> replaced(s, from, to) == s,
    decreases s.len(),
{
    let none = Seq::<char>::empty();
    let all = from + s;
    assert(all.subrange(0, from.len() as int) =~= from);
    assert(begins_with(all, from));
    assert(all.skip(from.len() as int) =~= s);
    lemma_split_from(s, from, none);
    lemma_join_front(none, split_from(s, from, none), to);
    assert(none + to + join_with(split_from(s, from, none), to) =~= to + join_with(split_from(s, from, none), to));
    if s.len() > 0 && !begins_with(s, from) {
        if s.len() < from.len() {
            assert(none + s =~= s);
            assert(none + s.skip(1) =~= s.skip(1));
            assert(join_with(seq![s], to) == s);
            assert(join_with(seq![s.skip(1)], to) == s.skip(1));
            assert(split_from(s, from, none) == seq![s]);
            assert(split_from(s.skip(1), from, none) == seq![s.skip(1)]);
            assert(seq![s[0]] + s.skip(1) =~= s);
        } else {
            lemma_replaced_cur(s.skip(1), from, to, none.push(s[0]));
            assert(none.push(s[0]) =~= seq![s[0]]);
        }
    }
    assert(none + none =~= none);
    assert(split_from(none, from, none) =~= seq![none]);
    if !holds_text(s, from) {
        if s.len() > 0 {
            assert(!occurs_at(s, from, 0));
            let rest = s.skip(1);
            assert(!holds_text(rest, from)) by {
                if holds_text(rest, from) {
                    let i = choose|i: int| occurs_at(rest, from, i);
                    assert(s.subrange(i + 1, i + 1 + from.len()) =~= rest.subrange(i, i + from.len()));
                    assert(occurs_at(s, from, i + 1));
                }
            }
            law_replaced_from_the_left(rest, from, to);
            assert(seq![s[0]] + rest =~= s);
        } else {
            assert(s =~= none);
        }
    }
}

/// `split` takes the separator first, and gives the pieces in their order; `join` takes it first too;
/// `replace` takes the text, what is looked for, and what comes in its place.
pub proof fn law_text_calls(s: Seq<char>, x: Seq<char>, y: Seq<char>, items: Seq<ValueView>, notations: Seq<Seq<char>>)
    ensures
        ({
            let r = split_call(seq![ValueView::String(x), ValueView::String(s)]);
            &&& r is Ok
            &&& r->Ok_0 is Array
            &&& r->Ok_0->Array_0.len() == split_by(s, x).len()
            &&& forall|i: int|
                0 <= i < split_by(s, x).len() ==> #[trigger] r->Ok_0->Array_0[i] == ValueView::String(split_by(s, x)[i])
        }),
        items.len() > 0 && notations.len() == items.len() ==> join_call(
            seq![ValueView::String(x), ValueView::Array(items)],
            notations,
        ) == CallView::Ok(
            ValueView::String(
                if items.len() == 1 {
                    display_text(items[0], notations[0])
                } else {
                    join_with(display_texts(items.drop_last(), notations.drop_last()), x) + x + display_text(
                        items.last(),
                        notations.last(),
                    )
                },
            ),
        ),
        join_call(seq![ValueView::String(x), ValueView::Array(Seq::empty())], notations) == CallView::Ok(
            ValueView::String(Seq::empty()),
        ),
        replace_call(seq![ValueView::String(s), ValueView::String(x), ValueView::String(y)]) == CallView::Ok(
            ValueView::String(replaced(s, x, y)),
        ),
        regex_replace_call(seq![ValueView::String(s), ValueView::String(x), ValueView::String(y)]) == CallView::Ok(
            ValueView::String(replaced(s, x, y)),
        ),
{
    if items.len() > 0 && notations.len() == items.len() {
        let shown = display_texts(items, notations);
        assert(shown.drop_last() =~= display_texts(items.drop_last(), notations.drop_last()));
        assert(shown.last() == display_text(items.last(), notations.last()));
    }
    assert(display_texts(Seq::empty(), notations) =~= Seq::empty());
}

/// The name behind the last `/`, and what stands in front of it, make up the path; without a `/` the
/// whole path is the name.
pub proof fn law_basename_and_dirname(t: Seq<char>, name: Seq<char>)
    requires
        !name.contains('/'),
    ensures
        basename_call(seq![ValueView::String(t + seq!['/'] + name)]) == CallView::Ok(ValueView::String(name)),
        dirname_call(seq![ValueView::String(t + seq!['/'] + name)]) == CallView::Ok(ValueView::String(t)),
        basename_call(seq![ValueView::String(name)]) == CallView::Ok(ValueView::String(name)),
        dirname_call(seq![ValueView::String(name)]) == CallView::Ok(ValueView::String(Seq::empty())),
{
    lemma_split_concat(t, '/', name);
    lemma_split_none(name, '/');
    lemma_split_nonempty(t, '/');
    law_cut_and_joined(t, '/');
    reveal_strlit("/");
    assert("/"@ =~= seq!['/']);
    let whole = t + seq!['/'] + name;
    assert(split_on(name, '/') == seq![name]);
    assert(split_on(whole, '/').drop_last() =~= split_on(t, '/'));
    assert(split_on(name, '/').drop_last() =~= Seq::empty());
    assert(base_of(whole) == name);
    assert(dir_of(whole) == t);
    assert(dir_of(name) =~= Seq::empty());
}

proof fn lemma_trimmed_end(s: Seq<char>)
    ensures
        trimmed_end(s).len() <= s.len(),
        trimmed_end(s) == s.take(trimmed_end(s).len() as int),
        forall|i: int| trimmed_end(s).len() <= i < s.len() ==> is_space(#[trigger] s[i]),
        trimmed_end(s).len() > 0 ==> !is_space(trimmed_end(s).last()),
    decreases s.len(),
{
    if s.len() > 0 && is_space(s.last()) {
        lemma_trimmed_end(s.drop_last());
        let n = trimmed_end(s).len() as int;
        assert(s.drop_last().take(n) =~= s.take(n));
        assert forall|i: int| n <= i < s.len() implies is_space(#[trigger] s[i]) by {
            if i < s.len() - 1 {
                assert(s.drop_last()[i] == s[i]);
            }
        }
    } else {
        assert(s.take(s.len() as int) =~= s);
    }
}

proof fn lemma_trimmed_start(s: Seq<char>)
    ensures
        trimmed_start(s).len() <= s.len(),
        trimmed_start(s) == s.skip(s.len() - trimmed_start(s).len()),
        forall|i: int| 0 <= i < s.len() - trimmed_start(s).len() ==> is_space(#[trigger] s[i]),
        trimmed_start(s).len() > 0 ==> !is_space(trimmed_start(s)[0]),
    decreases s.len(),
{
    if s.len() > 0 && is_space(s[0]) {
        let rest = s.skip(1);
        lemma_trimmed_start(rest);
        let n = trimmed_start(s).len();
        assert(rest.skip(rest.len() - n) =~= s.skip(s.len() - n));
        assert forall|i: int| 0 <= i < s.len() - n implies is_space(#[trigger] s[i]) by {
            if i > 0 {
                assert(rest[i - 1] == s[i]);
            }
        }
    } else {
        assert(s.skip(0) =~= s);
    }
}

/// `trimspace` takes space off both ends and nothing else: what is left neither begins nor ends with
/// space, and all that was taken off is space.
pub proof fn law_trimspace(s: Seq<char>)
    ensures
        trimspace_call(seq![ValueView::String(s)]) is Ok,
        ({
            let t = trimspace_call(seq![ValueView::String(s)])->Ok_0->String_0;
            &&& trimspace_call(seq![ValueView::String(s)])->Ok_0 is String
            &&& t.len() > 0 ==> !is_space(t[0]) && !is_space(t.last())
            &&& exists|a: int|
                0 <= a <= a + t.len() <= s.len() && #[trigger] s.subrange(a, a + t.len()) == t && (forall|i: int|
                    0 <= i < a || a + t.len() <= i < s.len() ==> is_space(#[trigger] s[i]))
        }),
{
    let front = trimmed_end(s);
    let t = trimmed_start(front);
    lemma_trimmed_end(s);
    lemma_trimmed_start(front);
    assert(trimspace_call(seq![ValueView::String(s)])->Ok_0->String_0 == t);
    let a = front.len() - t.len();
    assert(s.subrange(a, a + t.len()) =~= t);
    assert forall|i: int| 0 <= i < a || a + t.len() <= i < s.len() implies is_space(#[trigger] s[i]) by {
        if i < a {
            assert(front[i] == s[i]);
        }
    }
    if t.len() > 0 {
        assert(t.last() == front.last());
    }
}

// ---------------------------------------------------------------- how values show

/// The number that decimal digits stand for.
pub open spec fn number_of(digits: Seq<char>) -> int
    decreases digits.len(),
{
    if digits.len() == 0 {
        0
    } else {
        number_of(digits.drop_last()) * 10 + (digits.last() as int - '0' as int)
    }
}

/// A number is shown by decimal digits that stand for it, without a zero in front.
pub proof fn law_decimal_stands_for_number(n: nat)
    ensures
        number_of(decimal(n)) == n,
        forall|i: int| 0 <= i < decimal(n).len() ==> '0' <= #[trigger] decimal(n)[i] && decimal(n)[i] <= '9',
        n > 0 ==> decimal(n)[0] != '0',
        decimal(n).len() > 0,
    decreases n,
{
    reveal_with_fuel(number_of, 2);
    if n < 10 {
        assert(decimal(n).drop_last() =~= Seq::empty());
        assert(decimal(n)[0] as int == '0' as int + n);
    } else {
        law_decimal_stands_for_number(n / 10);
        assert(decimal(n).drop_last() =~= decimal(n / 10));
        assert(decimal(n).last() as int == '0' as int + n % 10);
        assert forall|i: int| 0 <= i < decimal(n).len() implies '0' <= #[trigger] decimal(n)[i] && decimal(n)[i]
            <= '9' by {
            if i < decimal(n / 10).len() {
                assert(decimal(n)[i] == decimal(n / 10)[i]);
            }
        }
        assert(decimal(n)[0] == decimal(n / 10)[0]);
    }
}

/// Values are shown as they are written: a string as itself, null as nothing, true and false by their
/// names, a negative number with a minus in front of its digits, and lists and objects as HCL writes
/// them.
pub proof fn law_values_show(v: ValueView, s: Seq<char>, n: u64, m: i64, notation: Seq<char>)
    requires
        m < 0,
    ensures
        tostring_call(seq![ValueView::String(s)], notation) == CallView::Ok(ValueView::String(s)),
        tostring_call(seq![ValueView::Null], notation) == CallView::Ok(ValueView::String(Seq::empty())),
        tostring_call(seq![ValueView::Bool(true)], notation) == CallView::Ok(ValueView::String("true"@)),
        tostring_call(seq![ValueView::Bool(false)], notation) == CallView::Ok(ValueView::String("false"@)),
        tostring_call(seq![ValueView::Number(NumberView::PosInt(n))], notation) == CallView::Ok(
            ValueView::String(decimal(n as nat)),
        ),
        tostring_call(seq![ValueView::Number(NumberView::NegInt(m))], notation) == CallView::Ok(
            ValueView::String(seq!['-'] + decimal((-m) as nat)),
        ),
        tostring_call(seq![ValueView::Number(NumberView::Float(s))], notation) == CallView::Ok(ValueView::String(s)),
        v is Array || v is Object ==> tostring_call(seq![v], notation) == CallView::Ok(ValueView::String(notation)),
        tostring_call(Seq::empty(), notation) is Err,
{
}

// ------------------------------------------------------------- lists and objects

/// `concat` puts the items of its lists one behind the other, in the order of the arguments, and takes
/// nothing but lists.
pub proof fn law_concat(args: Seq<ValueView>, items: Seq<ValueView>, other: ValueView)
    requires
        !(other is Array),
    ensures
        concat_call(Seq::empty()) == CallView::Ok(ValueView::Array(Seq::empty())),
        concat_call(args) is Ok ==> concat_call(args)->Ok_0 is Array && concat_call(
            args.push(ValueView::Array(items)),
        ) == CallView::Ok(ValueView::Array(concat_call(args)->Ok_0->Array_0 + items)),
        concat_call(args) is Err ==> concat_call(args.push(ValueView::Array(items))) is Err,
        concat_call(args.push(other)) is Err,
{
    assert(args.push(ValueView::Array(items)).drop_last() =~= args);
    assert(args.push(other).drop_last() =~= args);
}

/// `length` counts the items of a list or an object, or the characters of a text; `keys` and `values`
/// give an object's names and values in one order.
pub proof fn law_sizes_and_parts(list: Seq<ValueView>, object: Seq<(Seq<char>, ValueView)>, text: Seq<char>)
    ensures
        length_call(seq![ValueView::Array(list)]) == CallView::Ok(
            ValueView::Number(NumberView::PosInt(list.len() as u64)),
        ),
        length_call(seq![ValueView::Object(object)]) == CallView::Ok(
            ValueView::Number(NumberView::PosInt(object.len() as u64)),
        ),
        length_call(seq![ValueView::String(text)]) == CallView::Ok(
            ValueView::Number(NumberView::PosInt(text.len() as u64)),
        ),
        ({
            let r = keys_call(seq![ValueView::Object(object)]);
            &&& r is Ok
            &&& r->Ok_0 is Array
            &&& r->Ok_0->Array_0.len() == object.len()
            &&& forall|i: int|
                0 <= i < object.len() ==> #[trigger] r->Ok_0->Array_0[i] == ValueView::String(object[i].0)
        }),
        ({
            let r = values_call(seq![ValueView::Object(object)]);
            &&& r is Ok
            &&& r->Ok_0 is Array
            &&& r->Ok_0->Array_0.len() == object.len()
            &&& forall|i: int| 0 <= i < object.len() ==> #[trigger] r->Ok_0->Array_0[i] == object[i].1
        }),
{
}

proof fn lemma_entry(items: Seq<(Seq<char>, ValueView)>, key: Seq<char>)
    ensures
        entry(items, key) is None ==> forall|i: int| 0 <= i < items.len() ==> (#[trigger] items[i]).0 != key,
        entry(items, key) is Some ==> exists|i: int|
            0 <= i < items.len() && (#[trigger] items[i]).0 == key && items[i].1 == entry(items, key)->0 && forall|j: int|
                0 <= j < i ==> (#[trigger] items[j]).0 != key,
    decreases items.len(),
{
    if items.len() > 0 {
        if items[0].0 == key {
            assert(items[0].1 == entry(items, key)->0);
        } else {
            let rest = items.skip(1);
            lemma_entry(rest, key);
            if entry(items, key) is None {
                assert forall|i: int| 0 <= i < items.len() implies (#[trigger] items[i]).0 != key by {
                    if i > 0 {
                        assert(rest[i - 1] == items[i]);
                    }
                }
            } else {
                let i = choose|i: int|
                    0 <= i < rest.len() && (#[trigger] rest[i]).0 == key && rest[i].1 == entry(rest, key)->0 && forall|
                        j: int,
                    |
                        0 <= j < i ==> (#[trigger] rest[j]).0 != key;
                assert(items[i + 1] == rest[i]);
                assert forall|j: int| 0 <= j < i + 1 implies (#[trigger] items[j]).0 != key by {
                    if j > 0 {
                        assert(rest[j - 1] == items[j]);
                    }
                }
            }
        }
    }
}

/// `lookup` gives the value under the key where the object has one, and else its third argument, or
/// null without one.
pub proof fn law_lookup(items: Seq<(Seq<char>, ValueView)>, key: Seq<char>, other: ValueView, i: int)
    requires
        0 <= i < items.len() ==> items[i].0 == key && forall|j: int| 0 <= j < i ==> (#[trigger] items[j]).0 != key,
    ensures
        0 <= i < items.len() ==> lookup_call(seq![ValueView::Object(items), ValueView::String(key), other])
            == CallView::Ok(items[i].1) && lookup_call(seq![ValueView::Object(items), ValueView::String(key)])
            == CallView::Ok(items[i].1),
        (forall|j: int| 0 <= j < items.len() ==> (#[trigger] items[j]).0 != key) ==> lookup_call(
            seq![ValueView::Object(items), ValueView::String(key), other],
        ) == CallView::Ok(other) && lookup_call(seq![ValueView::Object(items), ValueView::String(key)]) == CallView::Ok(
            ValueView::Null,
        ),
{
    lemma_entry(items, key);
    if entry(items, key) is Some {
        let k = choose|k: int|
            0 <= k < items.len() && (#[trigger] items[k]).0 == key && items[k].1 == entry(items, key)->0 && forall|j: int|
                0 <= j < k ==> (#[trigger] items[j]).0 != key;
        if 0 <= i < items.len() {
            if k < i {
                assert(items[k].0 != key);
            }
            if i < k {
                assert(items[i].0 != key);
            }
        }
    }
}

/// `coalesce` gives the first of its arguments that is not null, and null where all are.
pub proof fn law_coalesce(args: Seq<ValueView>, i: int)
    requires
        0 <= i <= args.len(),
        forall|j: int| 0 <= j < i ==> (#[trigger] args[j]) is Null,
        i < args.len() ==> !(args[i] is Null),
    ensures
        i < args.len() ==> first_not_null(args) == args[i],
        i == args.len() ==> first_not_null(args) == ValueView::Null,
    decreases args.len(),
{
    if args.len() > 0 && i > 0 {
        let rest = args.skip(1);
        assert(args[0] is Null);
        assert forall|j: int| 0 <= j < i - 1 implies (#[trigger] rest[j]) is Null by {
            assert(rest[j] == args[j + 1]);
        }
        law_coalesce(rest, i - 1);
    }
}

/// `get_env` gives its second argument, or the empty text without one; `contains` says whether one of the
/// items is alike; a text is passed through as it is.
pub proof fn law_simple_calls(name: Seq<char>, other: ValueView, items: Seq<ValueView>, alike: Seq<bool>)
    ensures
        get_env_call(seq![ValueView::String(name), other]) == CallView::Ok(other),
        get_env_call(seq![ValueView::String(name)]) == CallView::Ok(ValueView::String(Seq::empty())),
        contains_call(seq![ValueView::Array(items), other], alike) == CallView::Ok(
            ValueView::Bool(exists|i: int| 0 <= i < alike.len() && #[trigger] alike[i]),
        ),
        passthrough_string_call(seq![ValueView::String(name)]) == CallView::Ok(ValueView::String(name)),
{
    if alike.contains(true) {
        let i = choose|i: int| 0 <= i < alike.len() && alike[i] == true;
        assert(alike[i]);
    }
    if exists|i: int| 0 <= i < alike.len() && #[trigger] alike[i] {
        let i = choose|i: int| 0 <= i < alike.len() && #[trigger] alike[i];
        assert(alike[i] == true);
        assert(alike.contains(true));
    }
}

/// A function that takes a text refuses anything else; `merge` takes nothing but objects; `lower` and `upper` change the case of
/// their text.
pub proof fn law_wrong_arguments_are_refused(v: ValueView, s: Seq<char>, args: Seq<ValueView>, notations: Seq<Seq<char>>)
    requires
        !(v is String),
    ensures
        trimspace_call(seq![v]) is Err,
        lower_call(seq![v]) is Err,
        upper_call(seq![v]) is Err,
        basename_call(seq![v]) is Err,
        dirname_call(seq![v]) is Err,
        split_call(seq![v, ValueView::String(s)]) is Err,
        split_call(seq![ValueView::String(s), v]) is Err,
        join_call(seq![v, ValueView::Array(args)], notations) is Err,
        join_call(seq![ValueView::String(s), ValueView::String(s)], notations) is Err,
        replace_call(seq![v, ValueView::String(s), ValueView::String(s)]) is Err,
        replace_call(seq![ValueView::String(s), v, ValueView::String(s)]) is Err,
        replace_call(seq![ValueView::String(s), ValueView::String(s), v]) is Err,
        format_call(seq![v], notations) is Err,
        get_env_call(seq![v]) is Err,
        lookup_call(seq![ValueView::String(s), ValueView::String(s)]) is Err,
        !(v is Array) ==> contains_call(seq![v], Seq::empty()) is Err,
        !(v is Object) ==> keys_call(seq![v]) is Err && values_call(seq![v]) is Err && merge_call(args.push(v)) is Err,
        length_call(seq![ValueView::Null]) is Err,
        length_call(Seq::empty()) is Err,
        lower_call(seq![ValueView::String(s)]) == CallView::Ok(ValueView::String(lowered(s))),
        upper_call(seq![ValueView::String(s)]) == CallView::Ok(ValueView::String(uppered(s))),
{
    assert(args.push(v).drop_last() =~= args);
}

/// How a value is written in a message: each kind by its name, with what it holds inside.
pub proof fn law_values_in_messages(b: bool, n: NumberView, s: Seq<char>, items: Seq<ValueView>, v: ValueView)
    ensures
        debug_text(ValueView::Null) == "Null"@,
        debug_text(ValueView::Bool(true)) == "Bool(true)"@,
        debug_text(ValueView::Bool(false)) == "Bool(false)"@,
        debug_text(ValueView::Number(n)) == "Number(Number("@ + number_text(n) + "))"@,
        debug_text(ValueView::String(s)) == "String("@ + quoted(s) + ")"@,
        debug_text(ValueView::Array(items)) == "Array(["@ + debug_items(items) + "])"@,
        items.len() > 0 ==> debug_items(items.push(v)) == debug_items(items) + ", "@ + debug_text(v),
        debug_items(seq![v]) == debug_text(v),
{
    reveal_strlit("Bool(");
    reveal_strlit("true");
    reveal_strlit("false");
    reveal_strlit(")");
    reveal_strlit("Bool(true)");
    reveal_strlit("Bool(false)");
    reveal_strlit("");
    assert("Bool("@ + "true"@ + ")"@ =~= "Bool(true)"@);
    assert("Bool("@ + "false"@ + ")"@ =~= "Bool(false)"@);
    assert(debug_text(ValueView::Bool(true)) == "Bool("@ + "true"@ + ")"@);
    assert(debug_text(ValueView::Bool(false)) == "Bool("@ + "false"@ + ")"@);
    assert(items.push(v).drop_last() =~= items);
    let one = seq![v];
    assert(one.drop_last() =~= Seq::<ValueView>::empty());
    assert(debug_items(Seq::empty()) == Seq::<char>::empty());
    assert(debug_items(one) =~= debug_text(v));
}

} // verus!
