//! Directed graphs given by their arcs: walks, cycles, topological order.

use vstd::prelude::*;

verus! {

// ------------------------------------------------------------- walks and cycles

/// There is an arc from `w[i]` to the node behind it.
pub open spec fn steps_on<T>(arcs: Seq<(T, T)>, w: Seq<T>, i: int) -> bool {
    arcs.contains((w[i], w[i + 1]))
}

/// Each node of `w` is followed by a node that it has an arc to.
pub open spec fn is_walk<T>(arcs: Seq<(T, T)>, w: Seq<T>) -> bool {
    &&& w.len() > 0
    &&& forall|i: int| 0 <= i < w.len() - 1 ==> #[trigger] steps_on(arcs, w, i)
}

/// There is a walk, perhaps of one node only, from `a` to `b`.
pub open spec fn reaches<T>(arcs: Seq<(T, T)>, a: T, b: T) -> bool {
    exists|w: Seq<T>| #[trigger] is_walk(arcs, w) && w[0] == a && w.last() == b
}

/// `c` is a walk whose last node has an arc back to the first.
pub open spec fn is_closed_walk<T>(arcs: Seq<(T, T)>, c: Seq<T>) -> bool {
    is_walk(arcs, c) && arcs.contains((c.last(), c[0]))
}

/// `c` is a closed walk that meets no node twice.
pub open spec fn is_cycle<T>(arcs: Seq<(T, T)>, c: Seq<T>) -> bool {
    is_closed_walk(arcs, c) && c.no_duplicates()
}

/// Some closed walk can be reached from `a`.
pub open spec fn leads_to_cycle<T>(arcs: Seq<(T, T)>, a: T) -> bool {
    exists|c: Seq<T>| #[trigger] is_closed_walk(arcs, c) && reaches(arcs, a, c[0])
}

/// `a` can be reached from some closed walk.
pub open spec fn follows_cycle<T>(arcs: Seq<(T, T)>, a: T) -> bool {
    exists|c: Seq<T>| #[trigger] is_closed_walk(arcs, c) && reaches(arcs, c[0], a)
}

/// `a` lies on some closed walk.
pub open spec fn on_cycle<T>(arcs: Seq<(T, T)>, a: T) -> bool {
    exists|c: Seq<T>| #[trigger] is_closed_walk(arcs, c) && c.contains(a)
}

/// `a` is an end of some arc.
pub open spec fn touches<T>(arcs: Seq<(T, T)>, a: T) -> bool {
    exists|k: int| 0 <= k < arcs.len() && ((#[trigger] arcs[k]).0 == a || arcs[k].1 == a)
}

pub proof fn lemma_reaches_self<T>(arcs: Seq<(T, T)>, a: T)
    ensures
        reaches(arcs, a, a),
{
    let w = seq![a];
    assert(is_walk(arcs, w) && w[0] == a && w.last() == a);
}

pub proof fn lemma_reaches_step<T>(arcs: Seq<(T, T)>, a: T, b: T, c: T)
    requires
        arcs.contains((a, b)),
        reaches(arcs, b, c),
    ensures
        reaches(arcs, a, c),
{
    let w = choose|w: Seq<T>| #[trigger] is_walk(arcs, w) && w[0] == b && w.last() == c;
    let v = seq![a] + w;
    assert forall|i: int| 0 <= i < v.len() - 1 implies #[trigger] steps_on(arcs, v, i) by {
        if i > 0 {
            assert(steps_on(arcs, w, i - 1));
            assert(v[i] == w[i - 1]);
            assert(v[i + 1] == w[i - 1 + 1]);
        }
    }
    assert(is_walk(arcs, v) && v[0] == a && v.last() == c);
}

pub proof fn lemma_reaches_trans<T>(arcs: Seq<(T, T)>, a: T, b: T, c: T)
    requires
        reaches(arcs, a, b),
        reaches(arcs, b, c),
    ensures
        reaches(arcs, a, c),
{
    let w = choose|w: Seq<T>| #[trigger] is_walk(arcs, w) && w[0] == a && w.last() == b;
    lemma_reaches_along(arcs, w, 0, c);
}

proof fn lemma_reaches_along<T>(arcs: Seq<(T, T)>, w: Seq<T>, i: int, c: T)
    requires
        is_walk(arcs, w),
        0 <= i < w.len(),
        reaches(arcs, w.last(), c),
    ensures
        reaches(arcs, w[i], c),
    decreases w.len() - i,
{
    if i < w.len() - 1 {
        lemma_reaches_along(arcs, w, i + 1, c);
        assert(steps_on(arcs, w, i));
        lemma_reaches_step(arcs, w[i], w[i + 1], c);
    }
}

/// The first node of a walk reaches each node of it.
pub proof fn lemma_walk_reaches<T>(arcs: Seq<(T, T)>, w: Seq<T>, i: int)
    requires
        is_walk(arcs, w),
        0 <= i < w.len(),
    ensures
        reaches(arcs, w[0], w[i]),
{
    let v = w.take(i + 1);
    assert forall|j: int| 0 <= j < v.len() - 1 implies #[trigger] steps_on(arcs, v, j) by {
        assert(steps_on(arcs, w, j));
        assert(v[j] == w[j]);
        assert(v[j + 1] == w[j + 1]);
    }
    assert(is_walk(arcs, v) && v[0] == w[0] && v.last() == w[i]);
}

/// Each node of a closed walk reaches the first.
pub proof fn lemma_closed_walk_returns<T>(arcs: Seq<(T, T)>, c: Seq<T>, i: int)
    requires
        is_closed_walk(arcs, c),
        0 <= i < c.len(),
    ensures
        reaches(arcs, c[i], c[0]),
{
    lemma_reaches_self(arcs, c[0]);
    lemma_reaches_step(arcs, c.last(), c[0], c[0]);
    lemma_reaches_along(arcs, c, i, c[0]);
}

/// A node on a closed walk has an arc to a node that leads back to it.
pub proof fn lemma_on_cycle_returns<T>(arcs: Seq<(T, T)>, a: T) -> (v: T)
    requires
        on_cycle(arcs, a),
    ensures
        arcs.contains((a, v)),
        reaches(arcs, v, a),
{
    let c = choose|c: Seq<T>| #[trigger] is_closed_walk(arcs, c) && c.contains(a);
    let i = choose|i: int| 0 <= i < c.len() && c[i] == a;
    lemma_walk_reaches(arcs, c, i);
    if i + 1 < c.len() {
        assert(steps_on(arcs, c, i));
        lemma_reaches_step(arcs, c.last(), c[0], a);
        lemma_reaches_along(arcs, c, i + 1, a);
        c[i + 1]
    } else {
        c[0]
    }
}

/// A node with an arc to a node that leads back to it is on a closed walk.
pub proof fn lemma_returning_on_cycle<T>(arcs: Seq<(T, T)>, a: T, v: T)
    requires
        arcs.contains((a, v)),
        reaches(arcs, v, a),
    ensures
        on_cycle(arcs, a),
{
    let w = choose|w: Seq<T>| #[trigger] is_walk(arcs, w) && w[0] == v && w.last() == a;
    assert(w[w.len() - 1] == a);
    assert(is_closed_walk(arcs, w) && w.contains(a));
}

/// A walk that meets a node twice holds a closed walk.
pub proof fn lemma_repetition_closes<T>(arcs: Seq<(T, T)>, w: Seq<T>, i: int, j: int)
    requires
        is_walk(arcs, w),
        0 <= i < j < w.len(),
        w[i] == w[j],
    ensures
        is_closed_walk(arcs, w.subrange(i, j)),
        w.subrange(i, j)[0] == w[i],
{
    let c = w.subrange(i, j);
    assert forall|k: int| 0 <= k < c.len() - 1 implies #[trigger] steps_on(arcs, c, k) by {
        assert(steps_on(arcs, w, i + k));
        assert(c[k] == w[i + k]);
        assert(c[k + 1] == w[i + k + 1]);
    }
    assert(c.last() == w[j - 1]);
    assert(steps_on(arcs, w, j - 1));
}

/// A sequence that is longer than `pool` and takes its elements from it holds one twice.
pub proof fn lemma_pigeonhole<T>(w: Seq<T>, pool: Seq<T>) -> (res: (int, int))
    requires
        w.len() > pool.len(),
        forall|i: int| 0 <= i < w.len() ==> pool.contains(#[trigger] w[i]),
    ensures
        0 <= res.0 < res.1 < w.len(),
        w[res.0] == w[res.1],
{
    if w.no_duplicates() {
        w.unique_seq_to_set();
        assert(w.to_set().subset_of(pool.to_set()));
        pool.lemma_cardinality_of_set();
        vstd::set_lib::lemma_len_subset(w.to_set(), pool.to_set());
        assert(false);
    }
    let (i, j) = choose|i: int, j: int| 0 <= i < w.len() && 0 <= j < w.len() && i != j && w[i] == w[j];
    if i < j {
        (i, j)
    } else {
        (j, i)
    }
}

/// Some node of `pool` has an arc to `v`.
pub open spec fn has_source_in<T>(arcs: Seq<(T, T)>, pool: Seq<T>, v: T) -> bool {
    exists|u: T| pool.contains(u) && #[trigger] arcs.contains((u, v))
}

/// The walk of `n` arcs that ends in `a` and takes, at each node, some arc from a node of `pool`.
spec fn trail<T>(arcs: Seq<(T, T)>, pool: Seq<T>, a: T, n: nat) -> Seq<T>
    decreases n,
{
    if n == 0 {
        seq![a]
    } else {
        let rest = trail(arcs, pool, a, (n - 1) as nat);
        let u = choose|u: T| pool.contains(u) && arcs.contains((u, rest[0]));
        seq![u] + rest
    }
}

proof fn lemma_trail<T>(arcs: Seq<(T, T)>, pool: Seq<T>, a: T, n: nat)
    requires
        pool.contains(a),
        forall|v: T| pool.contains(v) ==> #[trigger] has_source_in(arcs, pool, v),
    ensures
        is_walk(arcs, trail(arcs, pool, a, n)),
        trail(arcs, pool, a, n).len() == n + 1,
        trail(arcs, pool, a, n).last() == a,
        forall|i: int| 0 <= i <= n ==> pool.contains(#[trigger] trail(arcs, pool, a, n)[i]),
    decreases n,
{
    if n > 0 {
        let rest = trail(arcs, pool, a, (n - 1) as nat);
        lemma_trail(arcs, pool, a, (n - 1) as nat);
        assert(pool.contains(rest[0]));
        assert(has_source_in(arcs, pool, rest[0]));
        let u = choose|u: T| pool.contains(u) && arcs.contains((u, rest[0]));
        let w = trail(arcs, pool, a, n);
        assert(w == seq![u] + rest);
        assert forall|i: int| 0 <= i < w.len() - 1 implies #[trigger] steps_on(arcs, w, i) by {
            if i > 0 {
                assert(steps_on(arcs, rest, i - 1));
                assert(w[i] == rest[i - 1]);
                assert(w[i + 1] == rest[i - 1 + 1]);
            }
        }
        assert forall|i: int| 0 <= i <= n implies pool.contains(#[trigger] w[i]) by {
            if i > 0 {
                assert(w[i] == rest[i - 1]);
            }
        }
    }
}

/// Where each node of a finite set has an arc from a node of the set, each node of it can be
/// reached from a closed walk.
pub proof fn lemma_stuck_follows_cycle<T>(arcs: Seq<(T, T)>, stuck: Seq<T>, a: T)
    requires
        stuck.contains(a),
        forall|v: T| stuck.contains(v) ==> #[trigger] has_source_in(arcs, stuck, v),
    ensures
        follows_cycle(arcs, a),
{
    let w = trail(arcs, stuck, a, stuck.len());
    lemma_trail(arcs, stuck, a, stuck.len());
    let (i, j) = lemma_pigeonhole(w, stuck);
    lemma_repetition_closes(arcs, w, i, j);
    let v = w.skip(i);
    assert forall|k: int| 0 <= k < v.len() - 1 implies #[trigger] steps_on(arcs, v, k) by {
        assert(steps_on(arcs, w, i + k));
        assert(v[k] == w[i + k]);
        assert(v[k + 1] == w[i + k + 1]);
    }
    assert(is_walk(arcs, v) && v[0] == w[i] && v.last() == a);
}

/// The arcs, each turned around.
pub open spec fn turned<T>(arcs: Seq<(T, T)>) -> Seq<(T, T)> {
    arcs.map_values(|a: (T, T)| (a.1, a.0))
}

pub proof fn lemma_turned_arc<T>(arcs: Seq<(T, T)>, a: T, b: T)
    ensures
        turned(arcs).contains((a, b)) <==> arcs.contains((b, a)),
{
    if turned(arcs).contains((a, b)) {
        let k = choose|k: int| 0 <= k < arcs.len() && turned(arcs)[k] == (a, b);
        assert(arcs[k] == (b, a));
    }
    if arcs.contains((b, a)) {
        let k = choose|k: int| 0 <= k < arcs.len() && arcs[k] == (b, a);
        assert(turned(arcs)[k] == (a, b));
    }
}

proof fn lemma_turned_walk<T>(arcs: Seq<(T, T)>, w: Seq<T>)
    requires
        is_walk(turned(arcs), w),
    ensures
        is_walk(arcs, w.reverse()),
{
    let r = w.reverse();
    assert forall|i: int| 0 <= i < r.len() - 1 implies #[trigger] steps_on(arcs, r, i) by {
        let j = w.len() - 2 - i;
        assert(steps_on(turned(arcs), w, j));
        lemma_turned_arc(arcs, w[j], w[j + 1]);
    }
}

/// Where each node of a finite set has an arc to a node of the set, each node of it leads to a closed
/// walk.
pub proof fn lemma_stuck_leads_to_cycle<T>(arcs: Seq<(T, T)>, stuck: Seq<T>, a: T)
    requires
        forall|v: T| stuck.contains(v) ==> #[trigger] has_source_in(turned(arcs), stuck, v),
        stuck.contains(a),
    ensures
        leads_to_cycle(arcs, a),
{
    let rev = turned(arcs);
    lemma_stuck_follows_cycle(rev, stuck, a);
    let c = choose|c: Seq<T>| #[trigger] is_closed_walk(rev, c) && reaches(rev, c[0], a);
    let w = choose|w: Seq<T>| #[trigger] is_walk(rev, w) && w[0] == c[0] && w.last() == a;
    lemma_turned_walk(arcs, c);
    lemma_turned_walk(arcs, w);
    lemma_turned_arc(arcs, c.last(), c[0]);
    let d = c.reverse();
    let x = w.reverse();
    assert(d[0] == c.last() && d.last() == c[0]);
    assert(is_closed_walk(arcs, d));
    assert(is_walk(arcs, x) && x[0] == a && x.last() == c[0]);
    assert(reaches(arcs, a, c[0]));
    lemma_reaches_self(arcs, d[0]);
    lemma_reaches_step(arcs, c[0], d[0], d[0]);
    lemma_reaches_trans(arcs, a, c[0], d[0]);
}

// ------------------------------------------------------------ topological order

/// In `order`, every node comes after the nodes that have an arc to it, and these are all there.
pub open spec fn sources_first<T>(arcs: Seq<(T, T)>, order: Seq<T>) -> bool {
    forall|u: T, j: int|
        0 <= j < order.len() && #[trigger] arcs.contains((u, #[trigger] order[j])) ==> exists|i: int|
            0 <= i < j && order[i] == u
}

/// No node of an order with the sources first can be reached from a closed walk.
pub proof fn lemma_ordered_not_after_cycle<T>(arcs: Seq<(T, T)>, order: Seq<T>, a: T)
    requires
        sources_first(arcs, order),
        order.contains(a),
    ensures
        !follows_cycle(arcs, a),
{
    if follows_cycle(arcs, a) {
        let c = choose|c: Seq<T>| #[trigger] is_closed_walk(arcs, c) && reaches(arcs, c[0], a);
        let w = choose|w: Seq<T>| #[trigger] is_walk(arcs, w) && w[0] == c[0] && w.last() == a;
        let j = choose|j: int| 0 <= j < order.len() && order[j] == a;
        let i = lemma_walk_position(arcs, order, w, w.len() - 1, j);
        lemma_no_cycle_at(arcs, order, c, i);
    }
}

proof fn lemma_walk_position<T>(arcs: Seq<(T, T)>, order: Seq<T>, w: Seq<T>, k: int, j: int) -> (i: int)
    requires
        sources_first(arcs, order),
        is_walk(arcs, w),
        0 <= k < w.len(),
        0 <= j < order.len(),
        order[j] == w[k],
    ensures
        0 <= i <= j - k,
        order[i] == w[0],
    decreases k,
{
    if k == 0 {
        j
    } else {
        assert(steps_on(arcs, w, k - 1));
        let p = choose|p: int| 0 <= p < j && order[p] == w[k - 1];
        lemma_walk_position(arcs, order, w, k - 1, p)
    }
}

proof fn lemma_no_cycle_at<T>(arcs: Seq<(T, T)>, order: Seq<T>, c: Seq<T>, j: int)
    requires
        sources_first(arcs, order),
        is_closed_walk(arcs, c),
        0 <= j < order.len(),
    ensures
        order[j] != c[0],
    decreases j,
{
    if order[j] == c[0] {
        assert(arcs.contains((c.last(), order[j])));
        let p = choose|p: int| 0 <= p < j && order[p] == c.last();
        let i = lemma_walk_position(arcs, order, c, c.len() - 1, p);
        lemma_no_cycle_at(arcs, order, c, i);
    }
}

// ------------------------------------------------- sorting numbered nodes

/// The arcs join nodes below `n`.
pub open spec fn within(n: nat, arcs: Seq<(usize, usize)>) -> bool {
    forall|k: int| 0 <= k < arcs.len() ==> (#[trigger] arcs[k]).0 < n && arcs[k].1 < n
}

/// The targets of the arcs from `u`, in the order of the arcs.
pub open spec fn targets(arcs: Seq<(usize, usize)>, u: usize) -> Seq<usize>
    decreases arcs.len(),
{
    if arcs.len() == 0 {
        Seq::empty()
    } else {
        let before = targets(arcs.drop_last(), u);
        if arcs.last().0 == u {
            before.push(arcs.last().1)
        } else {
            before
        }
    }
}

proof fn lemma_targets(arcs: Seq<(usize, usize)>, u: usize, v: usize)
    ensures
        targets(arcs, u).contains(v) <==> arcs.contains((u, v)),
    decreases arcs.len(),
{
    if arcs.len() > 0 {
        let rest = arcs.drop_last();
        lemma_targets(rest, u, v);
        assert(arcs =~= rest.push(arcs.last()));
        let before = targets(rest, u);
        if arcs.contains((u, v)) {
            let k = choose|k: int| 0 <= k < arcs.len() && arcs[k] == (u, v);
            if k < rest.len() {
                assert(rest[k] == (u, v));
                let j = choose|j: int| 0 <= j < before.len() && before[j] == v;
                assert(targets(arcs, u)[j] == v);
            } else {
                assert(targets(arcs, u).last() == v);
            }
        }
        if targets(arcs, u).contains(v) {
            let j = choose|j: int| 0 <= j < targets(arcs, u).len() && targets(arcs, u)[j] == v;
            if j < before.len() {
                assert(before[j] == v);
                let k = choose|k: int| 0 <= k < rest.len() && rest[k] == (u, v);
                assert(arcs[k] == (u, v));
            } else {
                assert(arcs[arcs.len() - 1] == (u, v));
            }
        }
    }
}

/// For each node below `n`, the targets of its arcs.
pub fn successors(n: usize, arcs: &Vec<(usize, usize)>) -> (res: Vec<Vec<usize>>)
    requires
        within(n as nat, arcs@),
    ensures
        res@.len() == n,
        forall|u: usize| u < n ==> (#[trigger] res@[u as int])@ == targets(arcs@, u),
{
    let mut out: Vec<Vec<usize>> = Vec::new();
    let mut i: usize = 0;
    assert(arcs@.take(0) =~= Seq::<(usize, usize)>::empty());
    while i < n
        invariant
            out@.len() == i <= n,
            forall|u: usize| u < i ==> (#[trigger] out@[u as int])@ == Seq::<usize>::empty(),
        decreases n - i,
    {
        out.push(Vec::new());
        i += 1;
    }
    let mut k: usize = 0;
    while k < arcs.len()
        invariant
            k <= arcs@.len(),
            within(n as nat, arcs@),
            out@.len() == n,
            forall|u: usize| u < n ==> (#[trigger] out@[u as int])@ == targets(arcs@.take(k as int), u),
        decreases arcs@.len() - k,
    {
        let from: usize = arcs[k].0;
        let to: usize = arcs[k].1;
        assert(arcs@.take(k + 1).drop_last() =~= arcs@.take(k as int));
        assert(arcs@.take(k + 1).last() == arcs@[k as int]);
        out[from].push(to);
        k += 1;
    }
    assert(arcs@.take(k as int) =~= arcs@);
    out
}

/// How many arcs go to `v` from nodes that are not in `done`.
spec fn pending(arcs: Seq<(usize, usize)>, done: Set<usize>, v: usize) -> nat
    decreases arcs.len(),
{
    if arcs.len() == 0 {
        0
    } else {
        let before = pending(arcs.drop_last(), done, v);
        if arcs.last().1 == v && !done.contains(arcs.last().0) {
            before + 1
        } else {
            before
        }
    }
}

/// How often `v` occurs in `s`.
spec fn occurrences(s: Seq<usize>, v: usize) -> nat
    decreases s.len(),
{
    if s.len() == 0 {
        0
    } else if s.last() == v {
        occurrences(s.drop_last(), v) + 1
    } else {
        occurrences(s.drop_last(), v)
    }
}

proof fn lemma_occurrences_prefix(s: Seq<usize>, k: int, v: usize)
    requires
        0 <= k <= s.len(),
    ensures
        occurrences(s.take(k), v) <= occurrences(s, v),
    decreases s.len(),
{
    if k == s.len() {
        assert(s.take(k) =~= s);
    } else {
        assert(s.drop_last().take(k) =~= s.take(k));
        lemma_occurrences_prefix(s.drop_last(), k, v);
    }
}

proof fn lemma_pending_done(arcs: Seq<(usize, usize)>, done: Set<usize>, u: usize, v: usize)
    requires
        !done.contains(u),
    ensures
        pending(arcs, done.insert(u), v) + occurrences(targets(arcs, u), v) == pending(arcs, done, v),
    decreases arcs.len(),
{
    if arcs.len() > 0 {
        lemma_pending_done(arcs.drop_last(), done, u, v);
        let before = targets(arcs.drop_last(), u);
        if arcs.last().0 == u {
            assert(before.push(arcs.last().1).drop_last() =~= before);
        }
    }
}

proof fn lemma_pending_bound(arcs: Seq<(usize, usize)>, done: Set<usize>, v: usize)
    ensures
        pending(arcs, done, v) <= arcs.len(),
        pending(arcs, done, v) == 0 ==> forall|u: usize| #[trigger]
            arcs.contains((u, v)) ==> done.contains(u),
        pending(arcs, done, v) > 0 ==> exists|u: usize| #[trigger]
            arcs.contains((u, v)) && !done.contains(u),
    decreases arcs.len(),
{
    if arcs.len() > 0 {
        let rest = arcs.drop_last();
        lemma_pending_bound(rest, done, v);
        if pending(arcs, done, v) == 0 {
            assert forall|u: usize| #[trigger] arcs.contains((u, v)) implies done.contains(u) by {
                let k = choose|k: int| 0 <= k < arcs.len() && arcs[k] == (u, v);
                if k < rest.len() {
                    assert(rest[k] == (u, v));
                    assert(rest.contains((u, v)));
                }
            }
        } else if pending(rest, done, v) > 0 {
            let u = choose|u: usize| #[trigger] rest.contains((u, v)) && !done.contains(u);
            let k = choose|k: int| 0 <= k < rest.len() && rest[k] == (u, v);
            assert(arcs[k] == (u, v));
            assert(arcs.contains((u, v)) && !done.contains(u));
        } else {
            let u = arcs.last().0;
            assert(arcs[arcs.len() - 1] == (u, v));
            assert(arcs.contains((u, v)) && !done.contains(u));
        }
    }
}

/// The numbers of incoming arcs, by node.
fn in_degrees(n: usize, arcs: &Vec<(usize, usize)>) -> (res: Vec<usize>)
    requires
        within(n as nat, arcs@),
    ensures
        res@.len() == n,
        forall|v: usize| v < n ==> #[trigger] res@[v as int] == pending(arcs@, Set::empty(), v),
{
    let mut out: Vec<usize> = Vec::new();
    let mut i: usize = 0;
    while i < n
        invariant
            out@.len() == i <= n,
            forall|v: int| 0 <= v < i ==> #[trigger] out@[v] == 0,
        decreases n - i,
    {
        out.push(0);
        i += 1;
    }
    let m: usize = arcs.len();
    let mut k: usize = 0;
    while k < m
        invariant
            m == arcs@.len(),
            k <= m,
            within(n as nat, arcs@),
            out@.len() == n,
            forall|v: usize|
                v < n ==> #[trigger] out@[v as int] == pending(arcs@.take(k as int), Set::empty(), v),
        decreases m - k,
    {
        let to: usize = arcs[k].1;
        assert(arcs@.take(k + 1).drop_last() =~= arcs@.take(k as int));
        assert(arcs@.take(k + 1).last() == arcs@[k as int]);
        proof {
            lemma_pending_bound(arcs@.take(k as int), Set::empty(), to);
        }
        let d: usize = out[to];
        out.set(to, d + 1);
        k += 1;
    }
    assert(arcs@.take(k as int) =~= arcs@);
    out
}

/// The nodes below `n` that can be put into an order with the sources first (Kahn's algorithm).
/// The nodes that are left out each have an arc from a node that is left out.
pub fn kahn_order(n: usize, arcs: &Vec<(usize, usize)>) -> (order: Vec<usize>)
    requires
        within(n as nat, arcs@),
    ensures
        order@.no_duplicates(),
        forall|i: int| 0 <= i < order@.len() ==> #[trigger] order@[i] < n,
        sources_first(arcs@, order@),
        forall|v: usize|
            v < n && !#[trigger] order@.contains(v) ==> exists|u: usize|
                arcs@.contains((u, v)) && !order@.contains(u),
{
    let next = successors(n, arcs);
    let mut degree = in_degrees(n, arcs);
    let mut order: Vec<usize> = Vec::new();
    let ghost mut done: Set<usize> = Set::empty();
    let mut i: usize = 0;
    while i < n
        invariant
            i <= n,
            degree@.len() == n,
            forall|v: usize| v < n ==> #[trigger] degree@[v as int] == pending(arcs@, Set::empty(), v),
            forall|j: int| 0 <= j < order@.len() ==> #[trigger] order@[j] < i && degree@[order@[j] as int] == 0,
            forall|v: usize| v < i && #[trigger] degree@[v as int] == 0 ==> order@.contains(v),
            order@.no_duplicates(),
        decreases n - i,
    {
        let ghost before = order@;
        if degree[i] == 0 {
            order.push(i);
            assert(order@[before.len() as int] == i);
            assert forall|v: usize| v < i + 1 && #[trigger] degree@[v as int] == 0 implies order@.contains(v) by {
                if v < i {
                    let j = choose|j: int| 0 <= j < before.len() && before[j] == v;
                    assert(order@[j] == v);
                }
            }
        }
        i += 1;
    }
    proof {
        assert forall|u: usize, j: int|
            0 <= j < order@.len() && #[trigger] arcs@.contains((u, #[trigger] order@[j])) implies false by {
            lemma_pending_bound(arcs@, Set::empty(), order@[j]);
        }
    }
    let mut head: usize = 0;
    while head < order.len()
        invariant
            within(n as nat, arcs@),
            next@.len() == n,
            forall|u: usize| u < n ==> (#[trigger] next@[u as int])@ == targets(arcs@, u),
            head <= order@.len(),
            degree@.len() == n,
            order@.no_duplicates(),
            forall|u: usize| #[trigger] done.contains(u) <==> exists|j: int| 0 <= j < head && order@[j] == u,
            forall|v: usize| v < n ==> #[trigger] degree@[v as int] == pending(arcs@, done, v),
            forall|j: int| 0 <= j < order@.len() ==> #[trigger] order@[j] < n && degree@[order@[j] as int] == 0,
            forall|v: usize| v < n && #[trigger] degree@[v as int] == 0 ==> order@.contains(v),
            sources_first(arcs@, order@),
        decreases n - head,
    {
        proof {
            lemma_distinct_below(order@, n);
        }
        let u: usize = order[head];
        let ghost after = done.insert(u);
        let targets_of = &next[u];
        assert(!done.contains(u));
        let ghost all = targets(arcs@, u);
        let mut k: usize = 0;
        assert(all.take(0) =~= Seq::<usize>::empty());
        while k < targets_of.len()
            invariant
                within(n as nat, arcs@),
                targets_of@ == all,
                all == targets(arcs@, u),
                k <= all.len(),
                head < order@.len(),
                order@[head as int] == u,
                degree@.len() == n,
                order@.no_duplicates(),
                !done.contains(u),
                after == done.insert(u),
                forall|w: usize| #[trigger] done.contains(w) <==> exists|j: int| 0 <= j < head && order@[j] == w,
                forall|v: usize|
                    v < n ==> #[trigger] degree@[v as int] == pending(arcs@, done, v) - occurrences(
                        all.take(k as int),
                        v,
                    ),
                forall|j: int| 0 <= j < order@.len() ==> #[trigger] order@[j] < n && degree@[order@[j] as int] == 0,
                forall|v: usize| v < n && #[trigger] degree@[v as int] == 0 ==> order@.contains(v),
                sources_first(arcs@, order@),
            decreases all.len() - k,
        {
            let v: usize = targets_of[k];
            let ghost before = order@;
            proof {
                assert(all.contains(v));
                lemma_targets(arcs@, u, v);
                assert(arcs@.contains((u, v)));
                assert(all.take(k + 1).drop_last() =~= all.take(k as int));
                assert(all.take(k + 1).last() == v);
                lemma_pending_done(arcs@, done, u, v);
                lemma_occurrences_prefix(all, k + 1, v);
            }
            let d: usize = degree[v];
            degree.set(v, d - 1);
            if d == 1 {
                order.push(v);
                proof {
                    lemma_pending_bound(arcs@, after, v);
                    assert(pending(arcs@, after, v) == 0);
                    assert(order@[before.len() as int] == v);
                    assert forall|w: usize| w < n && #[trigger] degree@[w as int] == 0 implies order@.contains(w) by {
                        if w != v {
                            assert(before.contains(w));
                            let j = choose|j: int| 0 <= j < before.len() && before[j] == w;
                            assert(order@[j] == w);
                        }
                    }
                    assert forall|w: usize, j: int|
                        0 <= j < order@.len() && #[trigger] arcs@.contains(
                            (w, #[trigger] order@[j]),
                        ) implies exists|i: int| 0 <= i < j && order@[i] == w by {
                        if j < before.len() {
                            assert(before[j] == order@[j]);
                            let i = choose|i: int| 0 <= i < j && before[i] == w;
                            assert(order@[i] == w);
                        } else {
                            assert(after.contains(w));
                            if w == u {
                                assert(order@[head as int] == w);
                            } else {
                                let i = choose|i: int| 0 <= i < head && before[i] == w;
                                assert(order@[i] == w);
                            }
                        }
                    }
                    assert forall|w: usize| #[trigger] done.contains(w) <==> exists|j: int|
                        0 <= j < head && order@[j] == w by {
                        if done.contains(w) {
                            let j = choose|j: int| 0 <= j < head && before[j] == w;
                            assert(order@[j] == w);
                        }
                        if exists|j: int| 0 <= j < head && order@[j] == w {
                            let j = choose|j: int| 0 <= j < head && order@[j] == w;
                            assert(before[j] == w);
                        }
                    }
                }
            }
            k += 1;
        }
        proof {
            assert(all.take(k as int) =~= all);
            assert forall|v: usize| v < n implies #[trigger] degree@[v as int] == pending(arcs@, after, v) by {
                lemma_pending_done(arcs@, done, u, v);
            }
            assert forall|w: usize| #[trigger] after.contains(w) <==> exists|j: int|
                0 <= j < head + 1 && order@[j] == w by {
                if after.contains(w) {
                    if w == u {
                        assert(order@[head as int] == w);
                    } else {
                        let j = choose|j: int| 0 <= j < head && order@[j] == w;
                        assert(order@[j] == w);
                    }
                }
                if exists|j: int| 0 <= j < head + 1 && order@[j] == w {
                    let j = choose|j: int| 0 <= j < head + 1 && order@[j] == w;
                    if j < head {
                        assert(done.contains(w));
                    }
                }
            }
            done = after;
        }
        head += 1;
    }
    proof {
        assert forall|v: usize| v < n && !#[trigger] order@.contains(v) implies exists|u: usize|
            arcs@.contains((u, v)) && !order@.contains(u) by {
            lemma_pending_bound(arcs@, done, v);
            assert(degree@[v as int] != 0);
            let u = choose|u: usize| #[trigger] arcs@.contains((u, v)) && !done.contains(u);
            if order@.contains(u) {
                let j = choose|j: int| 0 <= j < order@.len() && order@[j] == u;
                assert(done.contains(u));
            }
            assert(arcs@.contains((u, v)) && !order@.contains(u));
        }
    }
    order
}

/// Distinct numbers below `n` are at most `n`.
proof fn lemma_distinct_below(s: Seq<usize>, n: usize)
    requires
        s.no_duplicates(),
        forall|i: int| 0 <= i < s.len() ==> #[trigger] s[i] < n,
    ensures
        s.len() <= n,
{
    let pool = Seq::new(n as nat, |i: int| i as usize);
    if s.len() > n {
        assert forall|i: int| 0 <= i < s.len() implies pool.contains(#[trigger] s[i]) by {
            assert(pool[s[i] as int] == s[i]);
        }
        let (i, j) = lemma_pigeonhole(s, pool);
    }
}

// ------------------------------------------------------------ searching cycles

/// Every arc from a node of `finished` goes to a node that stands before it there.
spec fn sinks_first(arcs: Seq<(usize, usize)>, finished: Seq<usize>) -> bool {
    forall|j: int, v: usize|
        0 <= j < finished.len() && #[trigger] arcs.contains((#[trigger] finished[j], v)) ==> exists|i: int|
            0 <= i < j && finished[i] == v
}

proof fn lemma_finished_walk(arcs: Seq<(usize, usize)>, finished: Seq<usize>, w: Seq<usize>, k: int, j: int) -> (i:
    int)
    requires
        sinks_first(arcs, finished),
        is_walk(arcs, w),
        0 <= k < w.len(),
        0 <= j < finished.len(),
        finished[j] == w[0],
    ensures
        0 <= i <= j - k,
        finished[i] == w[k],
    decreases k,
{
    if k == 0 {
        j
    } else {
        let p = lemma_finished_walk(arcs, finished, w, k - 1, j);
        assert(steps_on(arcs, w, k - 1));
        assert(arcs.contains((finished[p], w[k])));
        choose|i: int| 0 <= i < p && finished[i] == w[k]
    }
}

proof fn lemma_finished_not_on_cycle(arcs: Seq<(usize, usize)>, finished: Seq<usize>, c: Seq<usize>, j: int)
    requires
        sinks_first(arcs, finished),
        is_closed_walk(arcs, c),
        0 <= j < finished.len(),
    ensures
        finished[j] != c[0],
    decreases j,
{
    if finished[j] == c[0] {
        let p = lemma_finished_walk(arcs, finished, c, c.len() - 1, j);
        assert(arcs.contains((finished[p], c[0])));
        let i = choose|i: int| 0 <= i < p && finished[i] == c[0];
        lemma_finished_not_on_cycle(arcs, finished, c, i);
    }
}

/// What a search has seen: the nodes on the way to the current node, and those it is through with.
pub struct Search {
    path: Vec<usize>,
    on_path: Vec<bool>,
    finished: Vec<usize>,
    is_finished: Vec<bool>,
}

impl Search {
    spec fn well_formed(self, n: nat, arcs: Seq<(usize, usize)>) -> bool {
        &&& self.on_path@.len() == n
        &&& self.is_finished@.len() == n
        &&& self.path@.no_duplicates()
        &&& forall|i: int| 0 <= i < self.path@.len() ==> #[trigger] self.path@[i] < n
        &&& forall|v: usize| v < n ==> #[trigger] self.on_path@[v as int] == self.path@.contains(v)
        &&& forall|v: usize| v < n ==> #[trigger] self.is_finished@[v as int] == self.finished@.contains(v)
        &&& forall|v: usize| #[trigger] self.path@.contains(v) ==> !self.finished@.contains(v)
        &&& self.path@.len() > 0 ==> is_walk(arcs, self.path@)
        &&& sinks_first(arcs, self.finished@)
    }

    fn new(n: usize, arcs: &Vec<(usize, usize)>) -> (res: Search)
        ensures
            res.well_formed(n as nat, arcs@),
            res.path@.len() == 0,
    {
        let mut on_path: Vec<bool> = Vec::new();
        let mut is_finished: Vec<bool> = Vec::new();
        let mut i: usize = 0;
        while i < n
            invariant
                on_path@.len() == i <= n,
                is_finished@.len() == i,
                forall|v: int| 0 <= v < i ==> !#[trigger] on_path@[v],
                forall|v: int| 0 <= v < i ==> !#[trigger] is_finished@[v],
            decreases n - i,
        {
            on_path.push(false);
            is_finished.push(false);
            i += 1;
        }
        Search { path: Vec::new(), on_path, finished: Vec::new(), is_finished }
    }
}

/// The position of `v` in `s`, which holds it.
fn index_of(s: &Vec<usize>, v: usize) -> (res: usize)
    requires
        s@.contains(v),
    ensures
        res < s@.len(),
        s@[res as int] == v,
{
    let n: usize = s.len();
    let mut i: usize = 0;
    while s[i] != v
        invariant
            i < n,
            n == s@.len(),
            s@.contains(v),
            forall|j: int| 0 <= j < i ==> s@[j] != v,
        decreases s@.len() - i,
    {
        i += 1;
    }
    i
}

/// `s` from position `from` on.
fn suffix(s: &Vec<usize>, from: usize) -> (res: Vec<usize>)
    requires
        from <= s@.len(),
    ensures
        res@ == s@.skip(from as int),
{
    let mut out: Vec<usize> = Vec::new();
    let mut i: usize = from;
    while i < s.len()
        invariant
            from <= i <= s@.len(),
            out@ == s@.subrange(from as int, i as int),
        decreases s@.len() - i,
    {
        out.push(s[i]);
        i += 1;
        assert(s@.subrange(from as int, i as int) =~= s@.subrange(from as int, i - 1).push(s@[i - 1]));
    }
    assert(s@.skip(from as int) =~= s@.subrange(from as int, i as int));
    out
}

/// Goes on from `node`, which stands behind the end of the search's path: the first cycle that
/// a depth-first search meets, or nothing where it is through with `node`.
#[verifier::rlimit(50)]
fn dfs_find_cycle(
    node: usize,
    n: usize,
    arcs: &Vec<(usize, usize)>,
    next: &Vec<Vec<usize>>,
    search: &mut Search,
) -> (res: Option<Vec<usize>>)
    requires
        node < n,
        within(n as nat, arcs@),
        next@.len() == n,
        forall|u: usize| u < n ==> (#[trigger] next@[u as int])@ == targets(arcs@, u),
        old(search).well_formed(n as nat, arcs@),
        old(search).path@.len() > 0 ==> arcs@.contains((old(search).path@.last(), node)),
    ensures
        match res {
            Some(c) => is_cycle(arcs@, c@) && reaches(arcs@, node, c@[0]),
            None => {
                &&& final(search).well_formed(n as nat, arcs@)
                &&& final(search).path@ == old(search).path@
                &&& final(search).finished@.contains(node)
                &&& forall|v: usize| #[trigger]
                    old(search).finished@.contains(v) ==> final(search).finished@.contains(v)
            },
        },
    decreases n - old(search).path@.len(),
{
    proof {
        lemma_distinct_below(search.path@, n);
    }
    if search.on_path[node] {
        let start = index_of(&search.path, node);
        let c = suffix(&search.path, start);
        proof {
            let w = search.path@;
            assert forall|k: int| 0 <= k < c@.len() - 1 implies #[trigger] steps_on(arcs@, c@, k) by {
                assert(steps_on(arcs@, w, start + k));
                assert(c@[k] == w[start + k]);
                assert(c@[k + 1] == w[start + k + 1]);
            }
            assert(c@.last() == w.last());
            assert(c@[0] == node);
            lemma_reaches_self(arcs@, node);
        }
        return Some(c);
    }
    if search.is_finished[node] {
        return None;
    }
    let ghost path0 = search.path@;
    search.path.push(node);
    search.on_path.set(node, true);
    let ghost path1 = path0.push(node);
    proof {
        assert(path1[path0.len() as int] == node);
        assert forall|v: usize| path1.contains(v) <==> path0.contains(v) || v == node by {
            if path0.contains(v) {
                let i = choose|i: int| 0 <= i < path0.len() && path0[i] == v;
                assert(path1[i] == v);
            }
        }
        assert forall|k: int| 0 <= k < path1.len() - 1 implies #[trigger] steps_on(arcs@, path1, k) by {
            if k < path0.len() - 1 {
                assert(steps_on(arcs@, path0, k));
            }
        }
        assert(search.well_formed(n as nat, arcs@));
        lemma_distinct_below(search.path@, n);
    }
    let mut k: usize = 0;
    while k < next[node].len()
        invariant
            node < n,
            within(n as nat, arcs@),
            next@.len() == n,
            forall|u: usize| u < n ==> (#[trigger] next@[u as int])@ == targets(arcs@, u),
            k <= next@[node as int]@.len(),
            search.well_formed(n as nat, arcs@),
            search.path@ == path1,
            path1 == path0.push(node),
            path0 == old(search).path@,
            path0.len() < n,
            forall|j: int| 0 <= j < k ==> search.finished@.contains(#[trigger] next@[node as int]@[j]),
            forall|v: usize| #[trigger]
                old(search).finished@.contains(v) ==> search.finished@.contains(v),
        decreases next@[node as int]@.len() - k,
    {
        let v: usize = next[node][k];
        proof {
            assert(targets(arcs@, node).contains(v));
            lemma_targets(arcs@, node, v);
            assert(arcs@.contains((node, v)));
            let q = choose|q: int| 0 <= q < arcs@.len() && arcs@[q] == (node, v);
            assert(arcs@[q].1 < n);
            assert(path1.last() == node);
        }
        let found = dfs_find_cycle(v, n, arcs, next, search);
        match found {
            Some(c) => {
                proof {
                    lemma_reaches_step(arcs@, node, v, c@[0]);
                }
                return Some(c);
            },
            None => {},
        }
        k += 1;
    }
    let ghost finished0 = search.finished@;
    search.path.pop();
    search.on_path.set(node, false);
    search.finished.push(node);
    search.is_finished.set(node, true);
    proof {
        let finished1 = search.finished@;
        assert(search.path@ =~= path0);
        assert(finished1[finished0.len() as int] == node);
        assert forall|v: usize| #[trigger] finished1.contains(v) <==> finished0.contains(v) || v == node by {
            if finished0.contains(v) {
                let i = choose|i: int| 0 <= i < finished0.len() && finished0[i] == v;
                assert(finished1[i] == v);
            }
        }
        assert forall|v: usize| path1.contains(v) <==> #[trigger] path0.contains(v) || v == node by {
            assert(path1[path0.len() as int] == node);
            if path0.contains(v) {
                let i = choose|i: int| 0 <= i < path0.len() && path0[i] == v;
                assert(path1[i] == v);
            }
        }
        assert(!path0.contains(node));
        assert forall|j: int, v: usize|
            0 <= j < finished1.len() && #[trigger] arcs@.contains((#[trigger] finished1[j], v)) implies exists|i: int|
            0 <= i < j && finished1[i] == v by {
            if j < finished0.len() {
                assert(finished0[j] == finished1[j]);
                let i = choose|i: int| 0 <= i < j && finished0[i] == v;
                assert(finished1[i] == v);
            } else {
                lemma_targets(arcs@, node, v);
                let q = choose|q: int| 0 <= q < next@[node as int]@.len() && next@[node as int]@[q] == v;
                assert(finished0.contains(v));
                let i = choose|i: int| 0 <= i < finished0.len() && finished0[i] == v;
                assert(finished1[i] == v);
            }
        }
        assert(search.well_formed(n as nat, arcs@));
    }
    None
}

/// A cycle that can be reached from `start`, if there is one.
pub fn find_cycle_from(
    start: usize,
    n: usize,
    arcs: &Vec<(usize, usize)>,
    next: &Vec<Vec<usize>>,
) -> (res: Option<Vec<usize>>)
    requires
        start < n,
        within(n as nat, arcs@),
        next@.len() == n,
        forall|u: usize| u < n ==> (#[trigger] next@[u as int])@ == targets(arcs@, u),
    ensures
        match res {
            Some(c) => is_cycle(arcs@, c@) && reaches(arcs@, start, c@[0]),
            None => !leads_to_cycle(arcs@, start),
        },
{
    let mut search = Search::new(n, arcs);
    let res = dfs_find_cycle(start, n, arcs, next, &mut search);
    proof {
        if res is None && leads_to_cycle(arcs@, start) {
            let finished = search.finished@;
            let c = choose|c: Seq<usize>| #[trigger]
                is_closed_walk(arcs@, c) && reaches(arcs@, start, c[0]);
            let w = choose|w: Seq<usize>| #[trigger]
                is_walk(arcs@, w) && w[0] == start && w.last() == c[0];
            let j = choose|j: int| 0 <= j < finished.len() && finished[j] == start;
            let i = lemma_finished_walk(arcs@, finished, w, w.len() - 1, j);
            lemma_finished_not_on_cycle(arcs@, finished, c, i);
        }
    }
    res
}

/// How many are not yet seen.
spec fn unseen(seen: Seq<bool>) -> nat
    decreases seen.len(),
{
    if seen.len() == 0 {
        0
    } else {
        unseen(seen.drop_last()) + if seen.last() {
            0nat
        } else {
            1nat
        }
    }
}

proof fn lemma_unseen_less(seen: Seq<bool>, v: int)
    requires
        0 <= v < seen.len(),
        !seen[v],
    ensures
        unseen(seen.update(v, true)) + 1 == unseen(seen),
    decreases seen.len(),
{
    let after = seen.update(v, true);
    if v < seen.len() - 1 {
        assert(after.drop_last() =~= seen.drop_last().update(v, true));
        lemma_unseen_less(seen.drop_last(), v);
    } else {
        assert(after.drop_last() =~= seen.drop_last());
    }
}

/// What a search from `start` has seen can be reached from it by one or more arcs.
spec fn seen_behind(arcs: Seq<(usize, usize)>, start: usize, seen: Seq<bool>) -> bool {
    forall|v: usize|
        v < seen.len() && #[trigger] seen[v as int] ==> exists|x: usize|
            arcs.contains((start, x)) && reaches(arcs, x, v)
}

/// Where the search is through with a node, it has seen the nodes behind its arcs.
spec fn seen_through(arcs: Seq<(usize, usize)>, start: usize, seen: Seq<bool>, todo: Seq<usize>) -> bool {
    forall|u: usize, v: usize|
        u < seen.len() && (u == start || seen[u as int]) && !todo.contains(u) && #[trigger] arcs.contains((u, v)) ==> v
            < seen.len() && seen[v as int]
}

/// What is behind an arc from `start`, or from a node that was seen, is behind `start`.
proof fn lemma_behind(arcs: Seq<(usize, usize)>, start: usize, seen: Seq<bool>, u: usize, v: usize)
    requires
        seen_behind(arcs, start, seen),
        u == start || (u < seen.len() && seen[u as int]),
        arcs.contains((u, v)),
    ensures
        exists|x: usize| arcs.contains((start, x)) && reaches(arcs, x, v),
{
    lemma_reaches_self(arcs, v);
    if u != start {
        let x = choose|x: usize| arcs.contains((start, x)) && reaches(arcs, x, u);
        lemma_reaches_step(arcs, u, v, v);
        lemma_reaches_trans(arcs, x, u, v);
    }
}

/// Where a search from `start` is through with all nodes and did not come back, it is not on a
/// closed walk.
proof fn lemma_never_back(arcs: Seq<(usize, usize)>, start: usize, seen: Seq<bool>)
    requires
        start < seen.len(),
        !seen[start as int],
        seen_through(arcs, start, seen, Seq::empty()),
    ensures
        !on_cycle(arcs, start),
{
    if on_cycle(arcs, start) {
        let x = lemma_on_cycle_returns(arcs, start);
        let w = choose|w: Seq<usize>| #[trigger] is_walk(arcs, w) && w[0] == x && w.last() == start;
        lemma_walk_seen(arcs, start, seen, w, w.len() - 1);
    }
}

proof fn lemma_walk_seen(arcs: Seq<(usize, usize)>, start: usize, seen: Seq<bool>, w: Seq<usize>, k: int)
    requires
        start < seen.len(),
        seen_through(arcs, start, seen, Seq::empty()),
        is_walk(arcs, w),
        arcs.contains((start, w[0])),
        0 <= k < w.len(),
    ensures
        w[k] < seen.len(),
        seen[w[k] as int],
    decreases k,
{
    if k > 0 {
        lemma_walk_seen(arcs, start, seen, w, k - 1);
        assert(steps_on(arcs, w, k - 1));
        assert(arcs.contains((w[k - 1], w[k])));
    }
}

/// Whether `start` lies on a closed walk: whether a search from it comes back to it.
pub fn returns_to(start: usize, n: usize, arcs: &Vec<(usize, usize)>, next: &Vec<Vec<usize>>) -> (res: bool)
    requires
        start < n,
        within(n as nat, arcs@),
        next@.len() == n,
        forall|u: usize| u < n ==> (#[trigger] next@[u as int])@ == targets(arcs@, u),
    ensures
        res == on_cycle(arcs@, start),
{
    let mut seen: Vec<bool> = Vec::new();
    let mut i: usize = 0;
    while i < n
        invariant
            seen@.len() == i <= n,
            forall|v: int| 0 <= v < i ==> !#[trigger] seen@[v],
        decreases n - i,
    {
        seen.push(false);
        i += 1;
    }
    let mut todo: Vec<usize> = Vec::new();
    todo.push(start);
    assert(todo@[0] == start);
    while todo.len() > 0
        invariant
            start < n,
            within(n as nat, arcs@),
            next@.len() == n,
            forall|u: usize| u < n ==> (#[trigger] next@[u as int])@ == targets(arcs@, u),
            seen@.len() == n,
            !seen@[start as int],
            forall|k: int| 0 <= k < todo@.len() ==> #[trigger] todo@[k] < n && (todo@[k] == start || seen@[todo@[k] as int]),
            seen_behind(arcs@, start, seen@),
            seen_through(arcs@, start, seen@, todo@),
        decreases unseen(seen@) + todo@.len(),
    {
        let ghost todo0 = todo@;
        let last: usize = todo.len() - 1;
        let u: usize = todo[last];
        todo.pop();
        let ghost ts = targets(arcs@, u);
        let ghost budget = unseen(seen@) + todo@.len();
        let mut k: usize = 0;
        proof {
            assert(todo0 =~= todo@.push(u));
            assert(u < n && (u == start || seen@[u as int])) by {
                assert(todo0[last as int] == u);
            }
            assert forall|j: int| 0 <= j < todo@.len() implies #[trigger] todo@[j] < n && (todo@[j] == start
                || seen@[todo@[j] as int]) by {
                assert(todo0[j] == todo@[j]);
            }
            assert forall|x: usize, v: usize|
                x < n && x != u && (x == start || seen@[x as int]) && !todo@.contains(x) && #[trigger] arcs@.contains(
                    (x, v),
                ) implies v < n && seen@[v as int] by {
                if todo0.contains(x) {
                    let j = choose|j: int| 0 <= j < todo0.len() && todo0[j] == x;
                    assert(todo@[j] == x);
                }
            }
        }
        while k < next[u].len()
            invariant
                u < n,
                u == start || seen@[u as int],
                start < n,
                within(n as nat, arcs@),
                next@.len() == n,
                forall|u: usize| u < n ==> (#[trigger] next@[u as int])@ == targets(arcs@, u),
                ts == targets(arcs@, u),
                k <= ts.len(),
                seen@.len() == n,
                !seen@[start as int],
                forall|k: int|
                    0 <= k < todo@.len() ==> #[trigger] todo@[k] < n && (todo@[k] == start || seen@[todo@[k] as int]),
                seen_behind(arcs@, start, seen@),
                forall|x: usize, v: usize|
                    x < n && x != u && (x == start || seen@[x as int]) && !todo@.contains(x) && #[trigger] arcs@.contains(
                        (x, v),
                    ) ==> v < n && seen@[v as int],
                forall|j: int| 0 <= j < k ==> #[trigger] ts[j] < n && seen@[ts[j] as int],
                unseen(seen@) + todo@.len() == budget,
            decreases ts.len() - k,
        {
            let v: usize = next[u][k];
            let ghost seen0 = seen@;
            let ghost before = todo@;
            proof {
                assert(ts[k as int] == v);
                lemma_targets(arcs@, u, v);
                let j = choose|j: int| 0 <= j < arcs@.len() && arcs@[j] == (u, v);
                assert(arcs@[j].1 < n);
                lemma_behind(arcs@, start, seen@, u, v);
            }
            if v == start {
                proof {
                    let x = choose|x: usize| arcs@.contains((start, x)) && reaches(arcs@, x, v);
                    lemma_returning_on_cycle(arcs@, start, x);
                }
                return true;
            }
            if !seen[v] {
                seen.set(v, true);
                todo.push(v);
                proof {
                    lemma_unseen_less(seen0, v as int);
                    assert(todo@[before.len() as int] == v);
                    assert forall|x: usize, y: usize|
                        x < n && x != u && (x == start || seen@[x as int]) && !todo@.contains(x)
                            && #[trigger] arcs@.contains((x, y)) implies y < n && seen@[y as int] by {
                        if before.contains(x) {
                            let j = choose|j: int| 0 <= j < before.len() && before[j] == x;
                            assert(todo@[j] == x);
                        }
                    }
                    assert forall|j: int| 0 <= j < todo@.len() implies #[trigger] todo@[j] < n && (todo@[j] == start
                        || seen@[todo@[j] as int]) by {
                        if j < before.len() {
                            assert(before[j] == todo@[j]);
                        }
                    }
                }
            }
            k += 1;
        }
        proof {
            assert forall|x: usize, v: usize|
                x < seen@.len() && (x == start || seen@[x as int]) && !todo@.contains(x) && #[trigger] arcs@.contains(
                    (x, v),
                ) implies v < seen@.len() && seen@[v as int] by {
                if x == u {
                    lemma_targets(arcs@, u, v);
                    let j = choose|j: int| 0 <= j < ts.len() && ts[j] == v;
                    assert(ts[j] < n && seen@[ts[j] as int]);
                }
            }
        }
    }
    proof {
        assert(todo@ =~= Seq::empty());
        lemma_never_back(arcs@, start, seen@);
    }
    false
}

// ------------------------------------------------------------- naming the nodes

/// The arcs, with each number replaced by the name at that position.
pub open spec fn named<T>(names: Seq<T>, arcs: Seq<(usize, usize)>) -> Seq<(T, T)> {
    arcs.map_values(|a: (usize, usize)| (names[a.0 as int], names[a.1 as int]))
}

/// The nodes, with each number replaced by the name at that position.
pub open spec fn named_nodes<T>(names: Seq<T>, nodes: Seq<usize>) -> Seq<T> {
    nodes.map_values(|v: usize| names[v as int])
}

pub proof fn lemma_named_arc<T>(names: Seq<T>, arcs: Seq<(usize, usize)>, u: usize, v: usize)
    requires
        names.no_duplicates(),
        within(names.len(), arcs),
        u < names.len(),
        v < names.len(),
    ensures
        arcs.contains((u, v)) <==> named(names, arcs).contains((names[u as int], names[v as int])),
{
    let a = named(names, arcs);
    if arcs.contains((u, v)) {
        let k = choose|k: int| 0 <= k < arcs.len() && arcs[k] == (u, v);
        assert(a[k] == (names[u as int], names[v as int]));
    }
    if a.contains((names[u as int], names[v as int])) {
        let k = choose|k: int| 0 <= k < a.len() && a[k] == (names[u as int], names[v as int]);
        assert(arcs[k].0 < names.len() && arcs[k].1 < names.len());
        assert(arcs[k] == (u, v));
    }
}

/// A walk over numbers is a walk over the names.
pub proof fn lemma_named_walk<T>(names: Seq<T>, arcs: Seq<(usize, usize)>, w: Seq<usize>)
    requires
        names.no_duplicates(),
        within(names.len(), arcs),
        is_walk(arcs, w),
        w[0] < names.len(),
    ensures
        is_walk(named(names, arcs), named_nodes(names, w)),
        forall|i: int| 0 <= i < w.len() ==> #[trigger] w[i] < names.len(),
{
    let v = named_nodes(names, w);
    let a = named(names, arcs);
    assert forall|i: int| 0 <= i < w.len() implies #[trigger] w[i] < names.len() by {
        if i > 0 {
            assert(steps_on(arcs, w, i - 1));
            let k = choose|k: int| 0 <= k < arcs.len() && arcs[k] == (w[i - 1], w[i - 1 + 1]);
            assert(arcs[k].1 < names.len());
        }
    }
    assert forall|i: int| 0 <= i < v.len() - 1 implies #[trigger] steps_on(a, v, i) by {
        assert(steps_on(arcs, w, i));
        assert(w[i] < names.len() && w[i + 1] < names.len());
        lemma_named_arc(names, arcs, w[i], w[i + 1]);
    }
}

pub proof fn lemma_named_reaches<T>(names: Seq<T>, arcs: Seq<(usize, usize)>, u: usize, v: usize)
    requires
        names.no_duplicates(),
        within(names.len(), arcs),
        u < names.len(),
        reaches(arcs, u, v),
    ensures
        v < names.len(),
        reaches(named(names, arcs), names[u as int], names[v as int]),
{
    let w = choose|w: Seq<usize>| #[trigger] is_walk(arcs, w) && w[0] == u && w.last() == v;
    lemma_named_walk(names, arcs, w);
    let x = named_nodes(names, w);
    assert(w[w.len() - 1] < names.len());
    assert(is_walk(named(names, arcs), x) && x[0] == names[u as int] && x.last() == names[v as int]);
}

pub proof fn lemma_named_cycle<T>(names: Seq<T>, arcs: Seq<(usize, usize)>, c: Seq<usize>)
    requires
        names.no_duplicates(),
        within(names.len(), arcs),
        is_cycle(arcs, c),
    ensures
        is_cycle(named(names, arcs), named_nodes(names, c)),
        forall|i: int| 0 <= i < c.len() ==> #[trigger] c[i] < names.len(),
{
    let k = choose|k: int| 0 <= k < arcs.len() && arcs[k] == (c.last(), c[0]);
    assert(arcs[k].1 < names.len());
    lemma_named_walk(names, arcs, c);
    assert(c[c.len() - 1] < names.len());
    lemma_named_arc(names, arcs, c.last(), c[0]);
    let x = named_nodes(names, c);
    assert forall|i: int, j: int| 0 <= i < x.len() && 0 <= j < x.len() && i != j implies x[i] != x[j] by {
        assert(c[i] < names.len() && c[j] < names.len());
        assert(c[i] != c[j]);
    }
}

/// A walk over the names comes from a walk over numbers.
pub proof fn lemma_walk_numbers<T>(names: Seq<T>, arcs: Seq<(usize, usize)>, x: Seq<T>, u: usize) -> (w: Seq<
    usize,
>)
    requires
        names.no_duplicates(),
        names.len() <= usize::MAX,
        within(names.len(), arcs),
        is_walk(named(names, arcs), x),
        u < names.len(),
        names[u as int] == x[0],
    ensures
        is_walk(arcs, w),
        w.len() == x.len(),
        w[0] == u,
        forall|i: int| 0 <= i < w.len() ==> #[trigger] w[i] < names.len() && names[w[i] as int] == x[i],
    decreases x.len(),
{
    if x.len() == 1 {
        seq![u]
    } else {
        let y = x.drop_last();
        let a = named(names, arcs);
        assert forall|i: int| 0 <= i < y.len() - 1 implies #[trigger] steps_on(a, y, i) by {
            assert(steps_on(a, x, i));
        }
        let v = lemma_walk_numbers(names, arcs, y, u);
        assert(steps_on(a, x, x.len() - 2));
        let k = choose|k: int| 0 <= k < a.len() && a[k] == (x[x.len() - 2], x[x.len() - 2 + 1]);
        let b = arcs[k].1;
        assert(arcs[k].0 < names.len() && b < names.len());
        assert(v[v.len() - 1] < names.len());
        assert(names[arcs[k].0 as int] == names[v.last() as int]);
        assert(arcs.contains((v.last(), b)));
        let w = v.push(b);
        assert forall|i: int| 0 <= i < w.len() - 1 implies #[trigger] steps_on(arcs, w, i) by {
            if i < v.len() - 1 {
                assert(steps_on(arcs, v, i));
            }
        }
        w
    }
}

/// A node whose name leads to a closed walk of names leads to a closed walk of numbers.
pub proof fn lemma_leads_to_numbers<T>(names: Seq<T>, arcs: Seq<(usize, usize)>, u: usize)
    requires
        names.no_duplicates(),
        names.len() <= usize::MAX,
        within(names.len(), arcs),
        u < names.len(),
        leads_to_cycle(named(names, arcs), names[u as int]),
    ensures
        leads_to_cycle(arcs, u),
{
    let a = named(names, arcs);
    let c = choose|c: Seq<T>| #[trigger] is_closed_walk(a, c) && reaches(a, names[u as int], c[0]);
    let x = choose|x: Seq<T>| #[trigger] is_walk(a, x) && x[0] == names[u as int] && x.last() == c[0];
    let w = lemma_walk_numbers(names, arcs, x, u);
    assert(w[w.len() - 1] < names.len());
    let d = lemma_walk_numbers(names, arcs, c, w.last());
    assert(d[d.len() - 1] < names.len());
    lemma_named_arc(names, arcs, d.last(), d[0]);
    assert(is_closed_walk(arcs, d));
    assert(reaches(arcs, u, d[0]));
}

/// A node is on a closed walk of numbers exactly where its name is on a closed walk of names.
pub proof fn lemma_named_on_cycle<T>(names: Seq<T>, arcs: Seq<(usize, usize)>, u: usize)
    requires
        names.no_duplicates(),
        names.len() <= usize::MAX,
        within(names.len(), arcs),
        u < names.len(),
    ensures
        on_cycle(arcs, u) <==> on_cycle(named(names, arcs), names[u as int]),
{
    let a = named(names, arcs);
    let t = names[u as int];
    if on_cycle(arcs, u) {
        let v = lemma_on_cycle_returns(arcs, u);
        let k = choose|k: int| 0 <= k < arcs.len() && arcs[k] == (u, v);
        assert(arcs[k].1 < names.len());
        lemma_named_arc(names, arcs, u, v);
        lemma_named_reaches(names, arcs, v, u);
        lemma_returning_on_cycle(a, t, names[v as int]);
    }
    if on_cycle(a, t) {
        let s = lemma_on_cycle_returns(a, t);
        let k = choose|k: int| 0 <= k < a.len() && a[k] == (t, s);
        let v = arcs[k].1;
        assert(arcs[k].0 < names.len() && v < names.len());
        assert(arcs[k].0 == u);
        let x = choose|x: Seq<T>| #[trigger] is_walk(a, x) && x[0] == s && x.last() == t;
        let w = lemma_walk_numbers(names, arcs, x, v);
        assert(w[w.len() - 1] < names.len());
        assert(names[w.last() as int] == t);
        assert(is_walk(arcs, w) && w[0] == v && w.last() == u);
        lemma_returning_on_cycle(arcs, u, v);
    }
}

} // verus!
