//! What holds of every expression that is evaluated.

#[allow(unused_imports)]
use crate::builtins::{
    basename_call, concat_call, contains_call, dirname_call, entry, first_not_null, format_call, join_call, keys_call,
    length_call, lemma_entry_put, lemma_with_entry_at, lookup_call, lower_call, merge_call, number_text,
    passthrough_string_call, regex_replace_call, replace_call, split_call, tostring_call, trimspace_call, upper_call,
    values_call, with_entry, CallView,
};
#[allow(unused_imports)]
use crate::functions::{called, name_of, signature_of, Function, ParamKind, SurroundingsView};
#[allow(unused_imports)]
use crate::hcl_eval::{
    after, ask, attributes, bind, collect, has_try, is_try, key_text, lazily, lemma_with_item_at, literal, local_attributes,
    locals_of, one_pass, pairs_of, plain, request_of, rewritten, rewritten_all, rewritten_items, settled, tries, turns, with_item,
    with_locals, BindingsView, ScopeView,
};
#[allow(unused_imports)]
use crate::syntax::{
    AttributeView, BlockView, ContentsView, ExprView, KeyView, NumberView, OperatorView, StructureView, ValueView,
};
#[allow(unused_imports)]
use crate::world::{AnswerView, World};
use vstd::prelude::*;

verus! {

// --------------------------------------------------------------------- asking

/// An evaluator is asked for the expression with all that it stands in.
pub proof fn law_evaluator_gets_the_scope(w: World, e: ExprView, s: ScopeView, b: BindingsView)
    ensures
        request_of(e, s, b).expr == e,
        request_of(e, s, b).values == s.values,
        request_of(e, s, b).locals == s.locals,
        request_of(e, s, b).bindings == b,
        request_of(e, s, b).terragrunt_dir == s.terragrunt_dir,
        request_of(e, s, b).parent_dir == s.parent_dir,
        request_of(e, s, b).strict == s.strict,
        ask(w, e, s, b) == (w.eval)(request_of(e, s, b)),
{
}

// ------------------------------------------------------------------------ loops

/// The pairs that a loop over `collection` goes through: the items of a list under their places, those of an object under
/// their names.
pub open spec fn goes_through(collection: ValueView, pairs: Seq<(ValueView, ValueView)>) -> bool {
    match collection {
        ValueView::Array(items) => pairs.len() == items.len() && forall|i: int|
            0 <= i < items.len() ==> #[trigger] pairs[i] == (ValueView::Number(NumberView::PosInt(i as u64)), items[i]),
        ValueView::Object(items) => pairs.len() == items.len() && forall|i: int|
            0 <= i < items.len() ==> #[trigger] pairs[i] == (ValueView::String(items[i].0), items[i].1),
        _ => false,
    }
}

/// What is bound in one turn: the variable of the key, where there is one, and that of the value, behind what was bound
/// before.
pub open spec fn bound_in_turn(e: ExprView, b: BindingsView, pair: (ValueView, ValueView)) -> BindingsView {
    match e->key_var {
        Some(k) => b + seq![(k, pair.0), (e->value_var, pair.1)],
        None => b + seq![(e->value_var, pair.1)],
    }
}

/// In turn `k` the condition comes to `keep`, and then the value comes to `x`.
pub open spec fn turn_gives(
    w: World,
    e: ExprView,
    s: ScopeView,
    b: BindingsView,
    pair: (ValueView, ValueView),
    keep: bool,
    x: ValueView,
) -> bool {
    let inner = bound_in_turn(e, b, pair);
    &&& match e->For_cond {
        Some(c) => lazily(w, *c, s, inner).result == Ok::<ValueView, Seq<char>>(ValueView::Bool(keep)),
        None => keep,
    }
    &&& keep ==> lazily(w, *e->value, s, inner).result == Ok::<ValueView, Seq<char>>(x)
}

/// The values whose condition holds, in their order.
pub open spec fn picked(xs: Seq<ValueView>, keep: Seq<bool>) -> Seq<ValueView>
    decreases xs.len(),
{
    if xs.len() == 0 {
        Seq::empty()
    } else if keep[0] {
        seq![xs[0]] + picked(xs.skip(1), keep.skip(1))
    } else {
        picked(xs.skip(1), keep.skip(1))
    }
}

proof fn lemma_bound_in_turn(e: ExprView, b: BindingsView, pair: (ValueView, ValueView))
    ensures
        bind(b, e->key_var, e->value_var, pair) == bound_in_turn(e, b, pair),
{
    assert(bind(b, e->key_var, e->value_var, pair) =~= bound_in_turn(e, b, pair));
}

proof fn lemma_list_turns(
    w: World,
    e: ExprView,
    s: ScopeView,
    b: BindingsView,
    pairs: Seq<(ValueView, ValueView)>,
    xs: Seq<ValueView>,
    keep: Seq<bool>,
    k: int,
    acc: Seq<ValueView>,
)
    requires
        e is For,
        e->key is None,
        xs.len() == pairs.len(),
        keep.len() == pairs.len(),
        0 <= k <= pairs.len(),
        forall|i: int| 0 <= i < pairs.len() ==> turn_gives(w, e, s, b, #[trigger] pairs[i], keep[i], xs[i]),
    ensures
        turns(w, e, s, b, pairs, k, ValueView::Array(acc)).result == Ok::<ValueView, Seq<char>>(
            ValueView::Array(acc + picked(xs.skip(k), keep.skip(k))),
        ),
    decreases pairs.len() - k,
{
    if k == pairs.len() {
        assert(acc + picked(xs.skip(k), keep.skip(k)) =~= acc);
    } else {
        lemma_bound_in_turn(e, b, pairs[k]);
        assert(turn_gives(w, e, s, b, pairs[k], keep[k], xs[k]));
        assert(xs.skip(k).skip(1) =~= xs.skip(k + 1));
        assert(keep.skip(k).skip(1) =~= keep.skip(k + 1));
        if keep[k] {
            lemma_list_turns(w, e, s, b, pairs, xs, keep, k + 1, acc.push(xs[k]));
            let rest = picked(xs.skip(k + 1), keep.skip(k + 1));
            assert(acc.push(xs[k]) + rest =~= acc + (seq![xs[k]] + rest));
        } else {
            lemma_list_turns(w, e, s, b, pairs, xs, keep, k + 1, acc);
        }
    }
}

/// A loop without a key makes a list: of each item whose condition holds, what the value comes to with the variables bound
/// to the item's place or name and to the item, in the order of the items.
pub proof fn law_loop_makes_list(
    w: World,
    e: ExprView,
    s: ScopeView,
    b: BindingsView,
    collection: ValueView,
    pairs: Seq<(ValueView, ValueView)>,
    xs: Seq<ValueView>,
    keep: Seq<bool>,
)
    requires
        e is For,
        e->key is None,
        b.len() > 0 || has_try(e),
        lazily(w, *e->collection, s, b).result == Ok::<ValueView, Seq<char>>(collection),
        goes_through(collection, pairs),
        xs.len() == pairs.len(),
        keep.len() == pairs.len(),
        forall|i: int| 0 <= i < pairs.len() ==> turn_gives(w, e, s, b, #[trigger] pairs[i], keep[i], xs[i]),
    ensures
        lazily(w, e, s, b).result == Ok::<ValueView, Seq<char>>(ValueView::Array(picked(xs, keep))),
{
    assert(pairs_of(collection)->0 =~= pairs);
    lemma_list_turns(w, e, s, b, pairs, xs, keep, 0, Seq::empty());
    assert(xs.skip(0) =~= xs);
    assert(keep.skip(0) =~= keep);
    assert(Seq::empty() + picked(xs, keep) =~= picked(xs, keep));
}

/// The key of turn `k` comes to a text.
pub open spec fn key_gives(
    w: World,
    e: ExprView,
    s: ScopeView,
    b: BindingsView,
    pair: (ValueView, ValueView),
    key: Seq<char>,
) -> bool {
    lazily(w, *e->key->0, s, bound_in_turn(e, b, pair)).result == Ok::<ValueView, Seq<char>>(ValueView::String(key))
}

proof fn lemma_object_turns(
    w: World,
    e: ExprView,
    s: ScopeView,
    b: BindingsView,
    pairs: Seq<(ValueView, ValueView)>,
    keys: Seq<Seq<char>>,
    xs: Seq<ValueView>,
    k: int,
)
    requires
        e is For,
        e->key is Some,
        !e->grouping,
        xs.len() == pairs.len(),
        keys.len() == pairs.len(),
        keys.no_duplicates(),
        0 <= k <= pairs.len(),
        forall|i: int| 0 <= i < pairs.len() ==> turn_gives(w, e, s, b, #[trigger] pairs[i], true, xs[i]),
        forall|i: int| 0 <= i < pairs.len() ==> key_gives(w, e, s, b, #[trigger] pairs[i], keys[i]),
    ensures
        turns(
            w,
            e,
            s,
            b,
            pairs,
            k,
            ValueView::Object(Seq::new(k as nat, |i: int| (keys[i], xs[i]))),
        ).result == Ok::<ValueView, Seq<char>>(ValueView::Object(Seq::new(pairs.len(), |i: int| (keys[i], xs[i])))),
    decreases pairs.len() - k,
{
    let acc = Seq::new(k as nat, |i: int| (keys[i], xs[i]));
    if k < pairs.len() {
        lemma_bound_in_turn(e, b, pairs[k]);
        assert(turn_gives(w, e, s, b, pairs[k], true, xs[k]));
        assert(key_gives(w, e, s, b, pairs[k], keys[k]));
        lemma_object_turns(w, e, s, b, pairs, keys, xs, k + 1);
        assert forall|j: int| 0 <= j < acc.len() implies (#[trigger] acc[j]).0 != keys[k] by {}
        lemma_with_entry_at(acc, k, keys[k], xs[k]);
        assert(acc.push((keys[k], xs[k])) =~= Seq::new((k + 1) as nat, |i: int| (keys[i], xs[i])));
    }
}

/// A loop with a key makes an object: the value of each turn under the key of that turn.
pub proof fn law_loop_makes_object(
    w: World,
    e: ExprView,
    s: ScopeView,
    b: BindingsView,
    collection: ValueView,
    pairs: Seq<(ValueView, ValueView)>,
    keys: Seq<Seq<char>>,
    xs: Seq<ValueView>,
)
    requires
        e is For,
        e->key is Some,
        !e->grouping,
        b.len() > 0 || has_try(e),
        lazily(w, *e->collection, s, b).result == Ok::<ValueView, Seq<char>>(collection),
        goes_through(collection, pairs),
        xs.len() == pairs.len(),
        keys.len() == pairs.len(),
        keys.no_duplicates(),
        forall|i: int| 0 <= i < pairs.len() ==> turn_gives(w, e, s, b, #[trigger] pairs[i], true, xs[i]),
        forall|i: int| 0 <= i < pairs.len() ==> key_gives(w, e, s, b, #[trigger] pairs[i], keys[i]),
    ensures
        lazily(w, e, s, b).result == Ok::<ValueView, Seq<char>>(
            ValueView::Object(Seq::new(pairs.len(), |i: int| (keys[i], xs[i]))),
        ),
{
    assert(pairs_of(collection)->0 =~= pairs);
    lemma_object_turns(w, e, s, b, pairs, keys, xs, 0);
    assert(Seq::new(0, |i: int| (keys[i], xs[i])) =~= Seq::<(Seq<char>, ValueView)>::empty());
}

/// A later value replaces an earlier one under the same key; with grouping it comes behind it in a list; and what is under
/// other keys stays.
pub proof fn law_same_key_again(items: Seq<(Seq<char>, ValueView)>, key: Seq<char>, other: Seq<char>, x: ValueView)
    requires
        other != key,
    ensures
        ({
            let once = collect(ValueView::Object(items), Some(key), x, false);
            &&& once is Object
            &&& entry(once->Object_0, key) == Some(x)
            &&& entry(once->Object_0, other) == entry(items, other)
        }),
        ({
            let grouped = collect(ValueView::Object(items), Some(key), x, true);
            let before = entry(items, key);
            &&& grouped is Object
            &&& entry(grouped->Object_0, other) == entry(items, other)
            &&& before is Some && before->0 is Array ==> entry(grouped->Object_0, key) == Some(
                ValueView::Array(before->0->Array_0.push(x)),
            )
            &&& before is None ==> entry(grouped->Object_0, key) == Some(ValueView::Array(seq![x]))
        }),
{
    lemma_entry_put(items, key, x, key);
    lemma_entry_put(items, key, x, other);
    let before = entry(items, key);
    let group = match before {
        Some(ValueView::Array(g)) => ValueView::Array(g.push(x)),
        _ => ValueView::Array(seq![x]),
    };
    lemma_entry_put(items, key, group, key);
    lemma_entry_put(items, key, group, other);
}

/// A key may be a text, a truth value or a number, each as it is written; nothing else.
pub proof fn law_keys_of_objects(t: Seq<char>, n: NumberView, v: ValueView)
    ensures
        key_text(ValueView::String(t)) == Some(t),
        key_text(ValueView::Bool(true)) == Some("true"@),
        key_text(ValueView::Bool(false)) == Some("false"@),
        key_text(ValueView::Number(n)) == Some(number_text(n)),
        v is Null || v is Array || v is Object ==> key_text(v) is None,
{
}

// -------------------------------------------------------------------- rewriting

/// The expression is the value, written out.
pub open spec fn writes_out(e: ExprView, v: ValueView) -> bool
    decreases v,
{
    match v {
        ValueView::Null => e == ExprView::Null,
        ValueView::Bool(b) => e == ExprView::Bool(b),
        ValueView::Number(n) => e == ExprView::Number(n),
        ValueView::String(t) => e == ExprView::String(t),
        ValueView::Array(items) => e is Array && e->Array_0.len() == items.len() && forall|i: int|
            0 <= i < items.len() ==> writes_out(#[trigger] e->Array_0[i], items[i]),
        ValueView::Object(items) => e is Object && e->Object_0.len() == items.len() && forall|i: int|
            0 <= i < items.len() ==> (#[trigger] e->Object_0[i]).0 == KeyView::Expression(ExprView::String(items[i].0))
                && writes_out(e->Object_0[i].1, items[i].1),
    }
}

/// What is put in for a `try` or a loop is its value, written out.
pub proof fn law_value_is_written_out(w: World, e: ExprView, s: ScopeView, b: BindingsView, v: ValueView)
    ensures
        writes_out(literal(v), v),
        (is_try(e) || e is For) && (b.len() > 0 || has_try(e)) && lazily(w, e, s, b).result == Ok::<ValueView, Seq<char>>(v)
            ==> rewritten(w, e, s, b).expr is Ok && writes_out(rewritten(w, e, s, b).expr->Ok_0, v),
    decreases v,
{
    match v {
        ValueView::Array(items) => {
            assert forall|i: int| 0 <= i < items.len() implies writes_out(#[trigger] literal(v)->Array_0[i], items[i]) by {
                law_value_is_written_out(w, e, s, b, items[i]);
            }
        },
        ValueView::Object(items) => {
            assert forall|i: int| 0 <= i < items.len() implies (#[trigger] literal(v)->Object_0[i]).0 == KeyView::Expression(
                ExprView::String(items[i].0),
            ) && writes_out(literal(v)->Object_0[i].1, items[i].1) by {
                law_value_is_written_out(w, e, s, b, items[i].1);
            }
        },
        _ => {},
    }
}

/// Rewriting leaves the shape of an expression: each part is rewritten, and stays where it stood.
pub proof fn law_rewriting_keeps_places(
    w: World,
    s: ScopeView,
    b: BindingsView,
    x: ExprView,
    y: ExprView,
    z: ExprView,
    operator: Seq<char>,
    operators: Seq<OperatorView>,
)
    requires
        rewritten(w, x, s, b).expr is Ok,
        rewritten(w, y, s, b).expr is Ok,
        rewritten(w, z, s, b).expr is Ok,
    ensures
        ({
            let a = rewritten(w, x, s, b).expr->Ok_0;
            let c = rewritten(w, y, s, b).expr->Ok_0;
            let d = rewritten(w, z, s, b).expr->Ok_0;
            &&& rewritten(w, ExprView::Conditional { cond: Box::new(x), yes: Box::new(y), no: Box::new(z) }, s, b).expr
                == Ok::<ExprView, Seq<char>>(
                ExprView::Conditional { cond: Box::new(a), yes: Box::new(c), no: Box::new(d) },
            )
            &&& rewritten(w, ExprView::Binary { lhs: Box::new(x), operator, rhs: Box::new(y) }, s, b).expr == Ok::<
                ExprView,
                Seq<char>,
            >(ExprView::Binary { lhs: Box::new(a), operator, rhs: Box::new(c) })
            &&& rewritten(w, ExprView::Unary { operator, expr: Box::new(x) }, s, b).expr == Ok::<ExprView, Seq<char>>(
                ExprView::Unary { operator, expr: Box::new(a) },
            )
            &&& rewritten(w, ExprView::Parenthesis(Box::new(x)), s, b).expr == Ok::<ExprView, Seq<char>>(
                ExprView::Parenthesis(Box::new(a)),
            )
            &&& rewritten(w, ExprView::Traversal { expr: Box::new(x), operators }, s, b).expr == Ok::<ExprView, Seq<char>>(
                ExprView::Traversal { expr: Box::new(a), operators },
            )
        }),
{
    let a = rewritten(w, x, s, b).expr->Ok_0;
    let c = rewritten(w, y, s, b).expr->Ok_0;
    let d = rewritten(w, z, s, b).expr->Ok_0;
    assert(!has_try(x) && b.len() == 0 ==> a == x);
    assert(!has_try(y) && b.len() == 0 ==> c == y);
    assert(!has_try(z) && b.len() == 0 ==> d == z);
}

proof fn lemma_rewritten_all(w: World, items: Seq<ExprView>, s: ScopeView, b: BindingsView, done: Seq<ExprView>)
    requires
        done.len() == items.len(),
        forall|i: int| 0 <= i < items.len() ==> rewritten(w, #[trigger] items[i], s, b).expr == Ok::<ExprView, Seq<char>>(
            done[i],
        ),
    ensures
        rewritten_all(w, items, s, b).0 == Ok::<Seq<ExprView>, Seq<char>>(done),
    decreases items.len(),
{
    if items.len() == 0 {
        assert(done =~= Seq::empty());
    } else {
        let rest = items.drop_last();
        assert forall|i: int| 0 <= i < rest.len() implies rewritten(w, #[trigger] rest[i], s, b).expr == Ok::<
            ExprView,
            Seq<char>,
        >(done.drop_last()[i]) by {
            assert(rest[i] == items[i]);
        }
        lemma_rewritten_all(w, rest, s, b, done.drop_last());
        assert(rewritten(w, items[items.len() - 1], s, b).expr == Ok::<ExprView, Seq<char>>(done[items.len() - 1]));
        assert(done.drop_last().push(done.last()) =~= done);
    }
}

/// The arguments of a call, and the items of a list, are rewritten each in its place.
pub proof fn law_rewriting_keeps_order(
    w: World,
    s: ScopeView,
    b: BindingsView,
    items: Seq<ExprView>,
    done: Seq<ExprView>,
    namespace: Seq<Seq<char>>,
    name: Seq<char>,
    expand_final: bool,
)
    requires
        done.len() == items.len(),
        forall|i: int| 0 <= i < items.len() ==> rewritten(w, #[trigger] items[i], s, b).expr == Ok::<ExprView, Seq<char>>(
            done[i],
        ),
    ensures
        rewritten(w, ExprView::Array(items), s, b).expr == Ok::<ExprView, Seq<char>>(ExprView::Array(done)),
        !(namespace.len() == 0 && name == "try"@) ==> rewritten(
            w,
            ExprView::FuncCall { namespace, name, args: items, expand_final },
            s,
            b,
        ).expr == Ok::<ExprView, Seq<char>>(ExprView::FuncCall { namespace, name, args: done, expand_final }),
{
    lemma_rewritten_all(w, items, s, b, done);
    let call = ExprView::FuncCall { namespace, name, args: items, expand_final };
    let list = ExprView::Array(items);
    if b.len() == 0 && (!has_try(list) || !has_try(call)) && !(namespace.len() == 0 && name == "try"@) {
        assert forall|i: int| 0 <= i < items.len() implies items[i] == done[i] by {
            assert(!has_try(items[i]));
            assert(rewritten(w, items[i], s, b).expr == Ok::<ExprView, Seq<char>>(items[i]));
        }
        assert(items =~= done);
    }
    if b.len() == 0 && !has_try(list) {
        assert forall|i: int| 0 <= i < items.len() implies items[i] == done[i] by {
            assert(!has_try(items[i]));
            assert(rewritten(w, items[i], s, b).expr == Ok::<ExprView, Seq<char>>(items[i]));
        }
        assert(items =~= done);
    }
}

// ----------------------------------------------------------------------- locals

/// The locals are the attributes of the `locals` blocks, in their order, and nothing else.
pub proof fn law_locals_stand_in_their_blocks(
    items: Seq<StructureView>,
    body: Seq<StructureView>,
    block: BlockView,
    other: BlockView,
    a: AttributeView,
)
    requires
        block.identifier == "locals"@,
        other.identifier != "locals"@,
    ensures
        local_attributes(Seq::empty()).len() == 0,
        local_attributes(items.push(StructureView::Block(block))) == local_attributes(items) + attributes(block.body.items),
        local_attributes(items.push(StructureView::Block(other))) == local_attributes(items),
        local_attributes(items.push(StructureView::Attribute(a))) == local_attributes(items),
        attributes(Seq::empty()).len() == 0,
        attributes(body.push(StructureView::Attribute(a))) == attributes(body).push((a.key, a.expr)),
        attributes(body.push(StructureView::Block(other))) == attributes(body),
{
    assert(items.push(StructureView::Block(block)).drop_last() =~= items);
    assert(items.push(StructureView::Block(other)).drop_last() =~= items);
    assert(items.push(StructureView::Attribute(a)).drop_last() =~= items);
    assert(body.push(StructureView::Attribute(a)).drop_last() =~= body);
    assert(body.push(StructureView::Block(other)).drop_last() =~= body);
}

/// A local can use one that stands before it, and one that stands behind it: of two locals, the second is evaluated with the
/// first bound, and where the first cannot be evaluated alone, it is evaluated once the second is bound.
pub proof fn law_locals_use_each_other(
    w: World,
    s: ScopeView,
    a: Seq<char>,
    e: ExprView,
    x: ValueView,
    c: Seq<char>,
    f: ExprView,
    y: ValueView,
)
    requires
        a != c,
    ensures
        lazily(w, e, with_locals(s, Seq::empty()), Seq::empty()).result == Ok::<ValueView, Seq<char>>(x) && lazily(
            w,
            f,
            with_locals(s, seq![(a, x)]),
            Seq::empty(),
        ).result == Ok::<ValueView, Seq<char>>(y) ==> settled(w, seq![(a, e), (c, f)], s, Seq::empty()).result == Ok::<
            ValueView,
            Seq<char>,
        >(ValueView::Object(seq![(a, x), (c, y)])),
        lazily(w, e, with_locals(s, Seq::empty()), Seq::empty()).result is Err && lazily(
            w,
            f,
            with_locals(s, Seq::empty()),
            Seq::empty(),
        ).result == Ok::<ValueView, Seq<char>>(y) && lazily(w, e, with_locals(s, seq![(c, y)]), Seq::empty()).result == Ok::<
            ValueView,
            Seq<char>,
        >(x) ==> settled(w, seq![(a, e), (c, f)], s, Seq::empty()).result == Ok::<ValueView, Seq<char>>(
            ValueView::Object(seq![(c, y), (a, x)]),
        ),
{
    let none = Seq::<(Seq<char>, ValueView)>::empty();
    let two = seq![(a, e), (c, f)];
    let one = seq![(a, e)];
    let nothing = Seq::<(Seq<char>, ExprView)>::empty();
    assert(two.drop_last() =~= one);
    assert(one.drop_last() =~= nothing);
    assert(two.last() == (c, f));
    assert(one_pass(w, nothing, s, none).known == none);
    assert(with_entry(none, a, x) =~= seq![(a, x)]);
    assert(with_entry(none, c, y) =~= seq![(c, y)]);
    lemma_with_entry_at(seq![(a, x)], 1, c, y);
    lemma_with_entry_at(seq![(c, y)], 1, a, x);
    assert(seq![(a, x)].push((c, y)) =~= seq![(a, x), (c, y)]);
    assert(seq![(c, y)].push((a, x)) =~= seq![(c, y), (a, x)]);
    let known = seq![(c, y)];
    let p = one_pass(w, one, s, none);
    if lazily(w, e, with_locals(s, none), Seq::empty()).result is Ok {
        assert(p.left =~= nothing);
    } else {
        assert(p.left =~= one);
        assert(p.known == none);
        let q = one_pass(w, two, s, none);
        if lazily(w, f, with_locals(s, none), Seq::empty()).result == Ok::<ValueView, Seq<char>>(y) {
            assert(q.left =~= one);
            assert(q.known =~= known);
            let again = one_pass(w, one, s, known);
            assert(one_pass(w, nothing, s, known).known == known);
            if lazily(w, e, with_locals(s, known), Seq::empty()).result == Ok::<ValueView, Seq<char>>(x) {
                assert(again.left =~= nothing);
                assert(again.known == seq![(c, y), (a, x)]);
                assert(settled(w, one, s, known).result == Ok::<ValueView, Seq<char>>(ValueView::Object(again.known)));
            }
        }
    }
}

// --------------------------------------------------------------------- functions

/// The directories are what surrounds the expression, and the empty text where there is none.
pub proof fn law_directories_come_from_around(
    args: Seq<ValueView>,
    notations: Seq<Seq<char>>,
    items: Seq<Seq<char>>,
    alike: Seq<bool>,
    around: SurroundingsView,
)
    ensures
        called(Function::GetTerragruntDir, args, notations, items, alike, around) == CallView::Ok(
            ValueView::String(around.terragrunt_dir),
        ),
        around.parent_dir is Some ==> called(Function::GetParentTerragruntDir, args, notations, items, alike, around)
            == CallView::Ok(ValueView::String(around.parent_dir->0)),
        around.parent_dir is None ==> called(Function::GetParentTerragruntDir, args, notations, items, alike, around)
            == CallView::Ok(ValueView::String(Seq::empty())),
        around.repo_root is Some ==> called(Function::GetRepoRoot, args, notations, items, alike, around) == CallView::Ok(
            ValueView::String(around.repo_root->0),
        ),
        around.repo_root is None ==> called(Function::GetRepoRoot, args, notations, items, alike, around) == CallView::Ok(
            ValueView::String(Seq::empty()),
        ),
{
}

/// Functions that would look outside fail in a strict evaluation; otherwise they give an empty value of their kind.
pub proof fn law_outside_is_not_looked_at(
    f: Function,
    args: Seq<ValueView>,
    notations: Seq<Seq<char>>,
    items: Seq<Seq<char>>,
    alike: Seq<bool>,
    around: SurroundingsView,
)
    requires
        f is GetEnv || f is FindInParentFolders || f is File || f is Fileexists || f is Templatefile || f is ReadTerragruntConfig
            || f is Jsondecode || f is Yamldecode || f is RunCmd,
    ensures
        around.strict ==> called(f, args, notations, items, alike, around) is Err,
        !around.strict && (f is File || f is FindInParentFolders || f is Templatefile || f is RunCmd) ==> called(
            f,
            args,
            notations,
            items,
            alike,
            around,
        ) == CallView::Ok(ValueView::String(Seq::empty())),
        !around.strict && f is Fileexists ==> called(f, args, notations, items, alike, around) == CallView::Ok(
            ValueView::Bool(false),
        ),
        !around.strict && (f is ReadTerragruntConfig || f is Jsondecode || f is Yamldecode) ==> called(
            f,
            args,
            notations,
            items,
            alike,
            around,
        ) == CallView::Ok(ValueView::Object(Seq::empty())),
{
}

/// Each function does what its name says, on the arguments as they are.
pub proof fn law_functions_go_by_name(
    args: Seq<ValueView>,
    notations: Seq<Seq<char>>,
    items: Seq<Seq<char>>,
    alike: Seq<bool>,
    around: SurroundingsView,
)
    requires
        notations.len() > 0,
    ensures
        called(Function::Merge, args, notations, items, alike, around) == merge_call(args),
        called(Function::Format, args, notations, items, alike, around) == format_call(args, notations.skip(1)),
        called(Function::Coalesce, args, notations, items, alike, around) == CallView::Ok(first_not_null(args)),
        called(Function::Tostring, args, notations, items, alike, around) == tostring_call(args, notations[0]),
        called(Function::Lookup, args, notations, items, alike, around) == lookup_call(args),
        called(Function::Trimspace, args, notations, items, alike, around) == trimspace_call(args),
        called(Function::Lower, args, notations, items, alike, around) == lower_call(args),
        called(Function::Upper, args, notations, items, alike, around) == upper_call(args),
        called(Function::Replace, args, notations, items, alike, around) == replace_call(args),
        called(Function::RegexReplace, args, notations, items, alike, around) == regex_replace_call(args),
        called(Function::Split, args, notations, items, alike, around) == split_call(args),
        called(Function::Join, args, notations, items, alike, around) == join_call(args, items),
        called(Function::Concat, args, notations, items, alike, around) == concat_call(args),
        called(Function::Length, args, notations, items, alike, around) == length_call(args),
        called(Function::Keys, args, notations, items, alike, around) == keys_call(args),
        called(Function::Values, args, notations, items, alike, around) == values_call(args),
        called(Function::Contains, args, notations, items, alike, around) == contains_call(args, alike),
        called(Function::Basename, args, notations, items, alike, around) == basename_call(args),
        called(Function::Dirname, args, notations, items, alike, around) == dirname_call(args),
        called(Function::Abspath, args, notations, items, alike, around) == passthrough_string_call(args),
        called(Function::Pathexpand, args, notations, items, alike, around) == passthrough_string_call(args),
        called(Function::Jsonencode, args, notations, items, alike, around) == CallView::Ok(ValueView::String(Seq::empty())),
        called(Function::Yamlencode, args, notations, items, alike, around) == CallView::Ok(ValueView::String(Seq::empty())),
        name_of(Function::Merge) == "merge"@,
        name_of(Function::Format) == "format"@,
        name_of(Function::Coalesce) == "coalesce"@,
        name_of(Function::Tostring) == "tostring"@,
        name_of(Function::Lookup) == "lookup"@,
        name_of(Function::Trimspace) == "trimspace"@,
        name_of(Function::Lower) == "lower"@,
        name_of(Function::Upper) == "upper"@,
        name_of(Function::Replace) == "replace"@,
        name_of(Function::RegexReplace) == "regex_replace"@,
        name_of(Function::Split) == "split"@,
        name_of(Function::Join) == "join"@,
        name_of(Function::Concat) == "concat"@,
        name_of(Function::Length) == "length"@,
        name_of(Function::Keys) == "keys"@,
        name_of(Function::Values) == "values"@,
        name_of(Function::Contains) == "contains"@,
        name_of(Function::Basename) == "basename"@,
        name_of(Function::Dirname) == "dirname"@,
        name_of(Function::GetEnv) == "get_env"@,
        name_of(Function::GetRepoRoot) == "get_repo_root"@,
        name_of(Function::GetTerragruntDir) == "get_terragrunt_dir"@,
        name_of(Function::GetParentTerragruntDir) == "get_parent_terragrunt_dir"@,
{
}

proof fn lemma_rewritten_items(
    w: World,
    items: Seq<(KeyView, ExprView)>,
    s: ScopeView,
    b: BindingsView,
    done: Seq<ExprView>,
)
    requires
        done.len() == items.len(),
        forall|i: int| 0 <= i < items.len() ==> (#[trigger] items[i]).0 is Identifier,
        forall|i: int, j: int|
            0 <= i < j < items.len() ==> (#[trigger] items[i]).0 != (#[trigger] items[j]).0,
        forall|i: int|
            0 <= i < items.len() ==> rewritten(w, (#[trigger] items[i]).1, s, b).expr == Ok::<ExprView, Seq<char>>(done[i]),
    ensures
        rewritten_items(w, items, s, b).0 == Ok::<Seq<(KeyView, ExprView)>, Seq<char>>(
            Seq::new(items.len(), |i: int| (items[i].0, done[i])),
        ),
    decreases items.len(),
{
    let want = Seq::new(items.len(), |i: int| (items[i].0, done[i]));
    if items.len() == 0 {
        assert(want =~= Seq::empty());
    } else {
        let rest = items.drop_last();
        let front = done.drop_last();
        assert forall|i: int| 0 <= i < rest.len() implies (#[trigger] rest[i]).0 is Identifier && rewritten(
            w,
            rest[i].1,
            s,
            b,
        ).expr == Ok::<ExprView, Seq<char>>(front[i]) by {
            assert(rest[i] == items[i]);
        }
        assert forall|i: int, j: int| 0 <= i < j < rest.len() implies (#[trigger] rest[i]).0 != (#[trigger] rest[j]).0 by {
            assert(rest[i] == items[i] && rest[j] == items[j]);
        }
        lemma_rewritten_items(w, rest, s, b, front);
        let before = Seq::new(rest.len(), |i: int| (rest[i].0, front[i]));
        let n = items.len() - 1;
        let last = items[n];
        assert(last.0 is Identifier);
        assert(rewritten(w, last.1, s, b).expr == Ok::<ExprView, Seq<char>>(done[n]));
        assert forall|j: int| 0 <= j < before.len() implies (#[trigger] before[j]).0 != last.0 by {
            assert(items[j].0 != items[n].0);
        }
        lemma_with_item_at(before, before.len() as int, last.0, done[n]);
        assert(before.push((last.0, done[n])) =~= want);
    }
}

/// The values of an object are rewritten each under its own key.
pub proof fn law_rewriting_keeps_keys(
    w: World,
    s: ScopeView,
    b: BindingsView,
    items: Seq<(KeyView, ExprView)>,
    done: Seq<ExprView>,
)
    requires
        b.len() > 0 || has_try(ExprView::Object(items)),
        done.len() == items.len(),
        forall|i: int| 0 <= i < items.len() ==> (#[trigger] items[i]).0 is Identifier,
        forall|i: int, j: int|
            0 <= i < j < items.len() ==> (#[trigger] items[i]).0 != (#[trigger] items[j]).0,
        forall|i: int|
            0 <= i < items.len() ==> rewritten(w, (#[trigger] items[i]).1, s, b).expr == Ok::<ExprView, Seq<char>>(done[i]),
    ensures
        rewritten(w, ExprView::Object(items), s, b).expr == Ok::<ExprView, Seq<char>>(
            ExprView::Object(Seq::new(items.len(), |i: int| (items[i].0, done[i]))),
        ),
{
    lemma_rewritten_items(w, items, s, b, done);
}

// -------------------------------------------------------------------- file calls

/// No call of a file function is lost: those of the first argument of a `try`, and those of what a loop goes through, come first
/// in what the whole tells; those of both sides of an operator are told, in their order.
pub proof fn law_calls_are_told(w: World, e: ExprView, s: ScopeView, b: BindingsView, x: ExprView, y: ExprView, operator: Seq<char>)
    ensures
        ({
            let all = lazily(w, e, s, b).file_calls;
            &&& is_try(e) && e->args.len() > 0 && (b.len() > 0 || has_try(e)) ==> lazily(w, e->args[0], s, b).file_calls.is_prefix_of(all)
            &&& e is For && (b.len() > 0 || has_try(e)) ==> lazily(w, *e->collection, s, b).file_calls.is_prefix_of(all)
        }),
        rewritten(w, x, s, b).expr is Ok && (b.len() > 0 || has_try(x) || has_try(y)) ==> rewritten(
            w,
            ExprView::Binary { lhs: Box::new(x), operator, rhs: Box::new(y) },
            s,
            b,
        ).file_calls == rewritten(w, x, s, b).file_calls + rewritten(w, y, s, b).file_calls,
{
    let all = lazily(w, e, s, b).file_calls;
    if is_try(e) && e->args.len() > 0 && (b.len() > 0 || has_try(e)) {
        let first = lazily(w, e->args[0], s, b).file_calls;
        assert(lazily(w, e, s, b) == tries(w, e->args, s, b, 0, false, None));
        assert(all.subrange(0, first.len() as int) =~= first);
    }
    if e is For && (b.len() > 0 || has_try(e)) {
        let first = lazily(w, *e->collection, s, b).file_calls;
        assert(all.subrange(0, first.len() as int) =~= first);
    }
}

/// The calls that the locals make are told, those of each local behind those of the locals before it.
pub proof fn law_calls_of_locals_are_told(
    w: World,
    pending: Seq<(Seq<char>, ExprView)>,
    name: Seq<char>,
    e: ExprView,
    s: ScopeView,
    known: Seq<(Seq<char>, ValueView)>,
)
    ensures
        ({
            let before = one_pass(w, pending, s, known);
            let now = one_pass(w, pending.push((name, e)), s, known);
            now.file_calls == before.file_calls + lazily(w, e, with_locals(s, before.known), Seq::empty()).file_calls
        }),
        one_pass(w, Seq::empty(), s, known).file_calls.len() == 0,
        one_pass(w, Seq::empty(), s, known).known == known,
        one_pass(w, pending, s, known).file_calls.is_prefix_of(settled(w, pending, s, known).file_calls),
{
    assert(pending.push((name, e)).drop_last() =~= pending);
    let p = one_pass(w, pending, s, known);
    let all = settled(w, pending, s, known).file_calls;
    assert(all.subrange(0, p.file_calls.len() as int) =~= p.file_calls);
}

/// The parameters that a function takes.
pub proof fn law_parameters(f: Function)
    ensures
        signature_of(Function::Lookup).params == seq![ParamKind::Dictionary, ParamKind::Text, ParamKind::Any],
        signature_of(Function::Replace).params == seq![ParamKind::Text, ParamKind::Text, ParamKind::Text],
        signature_of(Function::Split).params == seq![ParamKind::Text, ParamKind::Text],
        signature_of(Function::Join).params == seq![ParamKind::Text, ParamKind::List],
        signature_of(Function::Contains).params == seq![ParamKind::List, ParamKind::Any],
        signature_of(Function::Format).params == seq![ParamKind::Text],
        signature_of(Function::GetEnv).params == seq![ParamKind::Text],
        signature_of(Function::Keys).params == seq![ParamKind::Dictionary],
        signature_of(Function::Values).params == seq![ParamKind::Dictionary],
        signature_of(f).rest is Some <==> f is Merge || f is Format || f is GetEnv || f is Templatefile || f is ReadTerragruntConfig
            || f is Try || f is Coalesce || f is RunCmd || f is FindInParentFolders || f is Concat,
        f is Merge ==> signature_of(f).rest == Some(ParamKind::Dictionary),
        f is Concat ==> signature_of(f).rest == Some(ParamKind::List),
        f is FindInParentFolders ==> signature_of(f).rest == Some(ParamKind::Text),
{
}

/// A `try` is seen wherever it stands: in an argument, in a list, under a key or in it, in what a traversal begins with, in
/// parentheses, in a condition or a branch, on either side of an operator, and in every part of a loop.
pub proof fn law_try_is_seen(e: ExprView, x: ExprView)
    requires
        has_try(x),
        match e {
            ExprView::FuncCall { namespace, name, args, expand_final } => args.contains(x),
            ExprView::Array(items) => items.contains(x),
            ExprView::Object(items) => exists|i: int|
                0 <= i < items.len() && ((#[trigger] items[i]).1 == x || items[i].0 == KeyView::Expression(x)),
            ExprView::Traversal { expr, operators } => *expr == x,
            ExprView::Parenthesis(y) => *y == x,
            ExprView::Conditional { cond, yes, no } => *cond == x || *yes == x || *no == x,
            ExprView::Unary { operator, expr } => *expr == x,
            ExprView::Binary { lhs, operator, rhs } => *lhs == x || *rhs == x,
            ExprView::For { key_var, value_var, collection, key, value, grouping, cond } => *collection == x || *value == x
                || (key is Some && *key->0 == x) || (cond is Some && *cond->0 == x),
            _ => false,
        },
    ensures
        has_try(e),
{
    match e {
        ExprView::FuncCall { namespace, name, args, expand_final } => {
            let i = choose|i: int| 0 <= i < args.len() && args[i] == x;
            assert(has_try(args[i]));
        },
        ExprView::Array(items) => {
            let i = choose|i: int| 0 <= i < items.len() && items[i] == x;
            assert(has_try(items[i]));
        },
        ExprView::Object(items) => {
            let i = choose|i: int|
                0 <= i < items.len() && ((#[trigger] items[i]).1 == x || items[i].0 == KeyView::Expression(x));
            assert((items[i].0 is Expression && has_try(items[i].0->Expression_0)) || has_try(items[i].1));
        },
        _ => {},
    }
}

/// A call of `try` is one, and a call by another name, or of a namespace, is none.
pub proof fn law_try_by_name(namespace: Seq<Seq<char>>, name: Seq<char>, args: Seq<ExprView>, expand_final: bool)
    ensures
        has_try(ExprView::FuncCall { namespace: Seq::empty(), name: "try"@, args, expand_final }),
        is_try(ExprView::FuncCall { namespace, name, args, expand_final }) <==> namespace.len() == 0 && name == "try"@,
{
}

/// A `try` all of whose arguments fail fails as the last of them does.
pub proof fn law_last_failure_is_told(w: World, e: ExprView, s: ScopeView, b: BindingsView)
    requires
        is_try(e),
        e->args.len() > 0,
        forall|i: int| 0 <= i < e->args.len() ==> lazily(w, #[trigger] e->args[i], s, b).result is Err,
    ensures
        lazily(w, e, s, b).result == lazily(w, e->args.last(), s, b).result,
{
    assert(lazily(w, e, s, b) == tries(w, e->args, s, b, 0, false, None));
    lemma_last_failure(w, e->args, s, b, 0, None);
}

proof fn lemma_last_failure(
    w: World,
    args: Seq<ExprView>,
    s: ScopeView,
    b: BindingsView,
    k: int,
    failure: Option<Seq<char>>,
)
    requires
        0 <= k < args.len(),
        forall|i: int| 0 <= i < args.len() ==> lazily(w, #[trigger] args[i], s, b).result is Err,
    ensures
        tries(w, args, s, b, k, false, failure).result == lazily(w, args.last(), s, b).result,
    decreases args.len() - k,
{
    assert(lazily(w, args[k], s, b).result is Err);
    let m = lazily(w, args[k], s, b).result->Err_0;
    if k + 1 < args.len() {
        lemma_last_failure(w, args, s, b, k + 1, Some(m));
    } else {
        assert(tries(w, args, s, b, k + 1, false, Some(m)).result == Err::<ValueView, Seq<char>>(m));
    }
}

} // verus!
