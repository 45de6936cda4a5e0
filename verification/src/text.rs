//! Text primitives: the strings of the library, seen as sequences of characters.

use vstd::prelude::*;

verus! {

/// The contents of a list of strings.
pub open spec fn texts(v: Seq<String>) -> Seq<Seq<char>> {
    v.map_values(|s: String| s@)
}

/// The contents of an optional string.
pub open spec fn opt_text(o: Option<String>) -> Option<Seq<char>> {
    match o {
        Some(s) => Some(s@),
        None => None,
    }
}

pub proof fn lemma_texts_push(v: Seq<String>, s: String)
    ensures
        texts(v.push(s)) == texts(v).push(s@),
{
    assert(texts(v.push(s)) =~= texts(v).push(s@));
}

/// `String::push` appends one character at the end.
pub assume_specification[ std::string::String::push ](s: &mut std::string::String, c: char)
    ensures
        final(s)@ == old(s)@.push(c),
;

/// The characters of `s`, in order.
pub fn to_chars(s: &str) -> (res: Vec<char>)
    ensures
        res@ == s@,
{
    let mut out: Vec<char> = Vec::new();
    for c in it: s.chars()
        invariant
            out@ == it.seq().take(it.index() as int),
            it.seq() == s@,
    {
        out.push(c);
    }
    out
}

/// The string made of `chars[lo..hi]`.
pub fn from_chars(chars: &Vec<char>, lo: usize, hi: usize) -> (res: String)
    requires
        lo <= hi <= chars@.len(),
    ensures
        res@ == chars@.subrange(lo as int, hi as int),
{
    let mut out = String::new();
    let mut i: usize = lo;
    while i < hi
        invariant
            lo <= i <= hi <= chars@.len(),
            out@ == chars@.subrange(lo as int, i as int),
        decreases hi - i,
    {
        out.push(chars[i]);
        i += 1;
        assert(chars@.subrange(lo as int, i as int) =~= chars@.subrange(lo as int, i - 1).push(
            chars@[i - 1],
        ));
    }
    out
}

/// Whether two strings hold the same characters.
pub fn same(a: &str, b: &str) -> (res: bool)
    ensures
        res == (a@ == b@),
{
    a.to_owned() == b.to_owned()
}

/// `a` followed by `b`.
pub fn concat(a: &str, b: &str) -> (res: String)
    ensures
        res@ == a@ + b@,
{
    let mut out = a.to_owned();
    out.append(b);
    out
}

/// A copy of a list of strings.
pub fn clone_texts(v: &Vec<String>) -> (res: Vec<String>)
    ensures
        texts(res@) == texts(v@),
        res@ == v@,
{
    let mut out: Vec<String> = Vec::new();
    let mut i: usize = 0;
    while i < v.len()
        invariant
            i <= v@.len(),
            out@ == v@.take(i as int),
        decreases v@.len() - i,
    {
        out.push(v[i].clone());
        i += 1;
        assert(v@.take(i as int) =~= v@.take(i - 1).push(v@[i - 1]));
    }
    assert(v@.take(i as int) =~= v@);
    out
}

/// A copy of an optional string.
pub fn clone_opt(o: &Option<String>) -> (res: Option<String>)
    ensures
        res == *o,
        opt_text(res) == opt_text(*o),
{
    match o {
        Some(s) => Some(s.clone()),
        None => None,
    }
}

/// Whether `names` holds `name`.
pub fn has_text(names: &Vec<String>, name: &str) -> (res: bool)
    ensures
        res == texts(names@).contains(name@),
{
    let mut i: usize = 0;
    while i < names.len()
        invariant
            i <= names@.len(),
            forall|j: int| 0 <= j < i ==> texts(names@)[j] != name@,
        decreases names@.len() - i,
    {
        if same(names[i].as_str(), name) {
            assert(texts(names@)[i as int] == name@);
            return true;
        }
        i += 1;
    }
    false
}

// ---------------------------------------------------------------- searching

/// `pat` stands in `s` at index `i`.
pub open spec fn occurs_at(s: Seq<char>, pat: Seq<char>, i: int) -> bool {
    0 <= i && i + pat.len() <= s.len() && s.subrange(i, i + pat.len()) == pat
}

/// `s` begins with `prefix`.
pub open spec fn begins_with(s: Seq<char>, prefix: Seq<char>) -> bool {
    occurs_at(s, prefix, 0)
}

/// `pat` stands somewhere in `s`.
pub open spec fn holds_text(s: Seq<char>, pat: Seq<char>) -> bool {
    exists|i: int| occurs_at(s, pat, i)
}

fn occurs_here(s: &Vec<char>, pat: &Vec<char>, at: usize) -> (res: bool)
    requires
        at <= s@.len(),
    ensures
        res == occurs_at(s@, pat@, at as int),
{
    if s.len() - at < pat.len() {
        return false;
    }
    let n: usize = s.len();
    let mut k: usize = 0;
    while k < pat.len()
        invariant
            k <= pat@.len(),
            n == s@.len(),
            at + pat@.len() <= n,
            forall|j: int| 0 <= j < k ==> s@[at + j] == pat@[j],
        decreases pat@.len() - k,
    {
        if s[at + k] != pat[k] {
            assert(s@.subrange(at as int, at + pat@.len())[k as int] != pat@[k as int]);
            return false;
        }
        k += 1;
    }
    assert(s@.subrange(at as int, at + pat@.len()) =~= pat@);
    true
}

/// Whether `s` begins with `prefix`.
pub fn starts_with(s: &str, prefix: &str) -> (res: bool)
    ensures
        res == begins_with(s@, prefix@),
{
    let sc = to_chars(s);
    let pc = to_chars(prefix);
    occurs_here(&sc, &pc, 0)
}

/// The first index at which `pat` stands in `s`, in characters.
pub fn find_text(s: &str, pat: &str) -> (res: Option<usize>)
    ensures
        match res {
            Some(i) => occurs_at(s@, pat@, i as int) && forall|j: int|
                0 <= j < i ==> !occurs_at(s@, pat@, j),
            None => !holds_text(s@, pat@),
        },
{
    let sc = to_chars(s);
    let pc = to_chars(pat);
    let mut i: usize = 0;
    while i < sc.len()
        invariant
            sc@ == s@,
            pc@ == pat@,
            i <= sc@.len(),
            forall|j: int| 0 <= j < i ==> !occurs_at(s@, pat@, j),
        decreases sc@.len() - i,
    {
        if occurs_here(&sc, &pc, i) {
            return Some(i);
        }
        i += 1;
    }
    if occurs_here(&sc, &pc, i) {
        return Some(i);
    }
    None
}

/// Whether `pat` stands somewhere in `s`.
pub fn contains_text(s: &str, pat: &str) -> (res: bool)
    ensures
        res == holds_text(s@, pat@),
{
    find_text(s, pat).is_some()
}

/// Whether `c` is one of the characters of `s`.
pub fn contains_char(s: &str, c: char) -> (res: bool)
    ensures
        res == s@.contains(c),
{
    let sc = to_chars(s);
    let mut i: usize = 0;
    while i < sc.len()
        invariant
            sc@ == s@,
            i <= sc@.len(),
            forall|j: int| 0 <= j < i ==> sc@[j] != c,
        decreases sc@.len() - i,
    {
        if sc[i] == c {
            return true;
        }
        i += 1;
    }
    false
}

// --------------------------------------------------------- splitting, joining

/// The pieces of `s` between the occurrences of `c`: one more than there are occurrences.
pub open spec fn split_on(s: Seq<char>, c: char) -> Seq<Seq<char>>
    decreases s.len(),
{
    if s.len() == 0 {
        seq![Seq::<char>::empty()]
    } else {
        let before = split_on(s.drop_last(), c);
        if s.last() == c {
            before.push(Seq::<char>::empty())
        } else {
            before.update(before.len() - 1, before.last().push(s.last()))
        }
    }
}

pub proof fn lemma_split_nonempty(s: Seq<char>, c: char)
    ensures
        split_on(s, c).len() >= 1,
    decreases s.len(),
{
    if s.len() > 0 {
        lemma_split_nonempty(s.drop_last(), c);
    }
}

/// The pieces of `s` between the occurrences of `c`.
pub fn split_char(s: &str, c: char) -> (res: Vec<String>)
    ensures
        texts(res@) == split_on(s@, c),
{
    let sc = to_chars(s);
    let mut out: Vec<String> = Vec::new();
    let mut cur = String::new();
    let mut i: usize = 0;
    assert(split_on(sc@.take(0), c) =~= texts(out@).push(cur@));
    while i < sc.len()
        invariant
            sc@ == s@,
            i <= sc@.len(),
            split_on(sc@.take(i as int), c) == texts(out@).push(cur@),
        decreases sc@.len() - i,
    {
        assert(sc@.take(i + 1).drop_last() =~= sc@.take(i as int));
        assert(sc@.take(i + 1).last() == sc@[i as int]);
        let ghost before = texts(out@).push(cur@);
        if sc[i] == c {
            proof {
                lemma_texts_push(out@, cur);
            }
            out.push(cur);
            cur = String::new();
            assert(texts(out@).push(cur@) =~= before.push(Seq::<char>::empty()));
        } else {
            cur.push(sc[i]);
            assert(texts(out@).push(cur@) =~= before.update(
                before.len() - 1,
                before.last().push(sc@[i as int]),
            ));
        }
        i += 1;
    }
    assert(sc@.take(i as int) =~= sc@);
    proof {
        lemma_texts_push(out@, cur);
    }
    out.push(cur);
    out
}

/// The parts one after the other, with `sep` between neighbours.
pub open spec fn join_with(parts: Seq<Seq<char>>, sep: Seq<char>) -> Seq<char>
    decreases parts.len(),
{
    if parts.len() == 0 {
        Seq::<char>::empty()
    } else if parts.len() == 1 {
        parts[0]
    } else {
        join_with(parts.drop_last(), sep) + sep + parts.last()
    }
}

/// The parts one after the other, with `sep` between neighbours.
pub fn join(parts: &Vec<String>, sep: &str) -> (res: String)
    ensures
        res@ == join_with(texts(parts@), sep@),
{
    let mut out = String::new();
    let mut i: usize = 0;
    assert(texts(parts@).take(0) =~= Seq::<Seq<char>>::empty());
    while i < parts.len()
        invariant
            i <= parts@.len(),
            out@ == join_with(texts(parts@).take(i as int), sep@),
        decreases parts@.len() - i,
    {
        let ghost all = texts(parts@);
        assert(all.take(i + 1).drop_last() =~= all.take(i as int));
        assert(all.take(i + 1).last() == parts@[i as int]@);
        if i > 0 {
            out.append(sep);
        } else {
            assert(out@ =~= Seq::<char>::empty());
        }
        out.append(parts[i].as_str());
        if i == 0 {
            assert(out@ =~= parts@[0]@);
        }
        i += 1;
    }
    assert(texts(parts@).take(i as int) =~= texts(parts@));
    out
}

/// `s` with every `/` and `\` turned into `_`.
pub open spec fn underscored(s: Seq<char>) -> Seq<char> {
    s.map_values(|c: char| if c == '/' || c == '\\' { '_' } else { c })
}

/// `s` with every `/` and `\` turned into `_`.
pub fn underscore(s: &str) -> (res: String)
    ensures
        res@ == underscored(s@),
{
    let sc = to_chars(s);
    let mut out = String::new();
    let mut i: usize = 0;
    while i < sc.len()
        invariant
            sc@ == s@,
            i <= sc@.len(),
            out@ == underscored(sc@.take(i as int)),
        decreases sc@.len() - i,
    {
        if sc[i] == '/' || sc[i] == '\\' {
            out.push('_');
        } else {
            out.push(sc[i]);
        }
        i += 1;
        assert(out@ =~= underscored(sc@.take(i as int)));
    }
    assert(sc@.take(i as int) =~= sc@);
    out
}

// ------------------------------------------------------------------- numbers

/// The digit `d`, for `d < 10`.
pub open spec fn digit(d: nat) -> char {
    ('0' as u32 + d) as char
}

/// The decimal notation of `n`.
pub open spec fn decimal(n: nat) -> Seq<char>
    decreases n,
{
    if n < 10 {
        seq![digit(n)]
    } else {
        decimal(n / 10).push(digit(n % 10))
    }
}

/// The decimal notation of an integer, with a leading `-` below zero.
pub open spec fn signed_decimal(n: int) -> Seq<char> {
    if n < 0 {
        seq!['-'] + decimal((-n) as nat)
    } else {
        decimal(n as nat)
    }
}

fn digit_char(d: u64) -> (res: char)
    requires
        d < 10,
    ensures
        res == digit(d as nat),
{
    (48u8 + d as u8) as char
}

/// The decimal notation of `n`.
pub fn decimal_text(n: u64) -> (res: String)
    ensures
        res@ == decimal(n as nat),
    decreases n,
{
    if n < 10 {
        let mut out = String::new();
        out.push(digit_char(n));
        assert(out@ =~= seq![digit(n as nat)]);
        out
    } else {
        let mut out = decimal_text(n / 10);
        out.push(digit_char(n % 10));
        out
    }
}

/// The decimal notation of `n`, with a leading `-` below zero.
pub fn signed_decimal_text(n: i64) -> (res: String)
    ensures
        res@ == signed_decimal(n as int),
{
    if n < 0 {
        let mut out = String::new();
        out.push('-');
        let magnitude: u64 = if n == i64::MIN {
            0x8000_0000_0000_0000u64
        } else {
            (-n) as u64
        };
        let digits = decimal_text(magnitude);
        out.append(digits.as_str());
        assert(out@ =~= seq!['-'] + decimal((-n) as nat));
        out
    } else {
        decimal_text(n as u64)
    }
}

// ------------------------------------------------------------------ ordering

/// `a` comes before `b` when strings are ordered by their characters' code points.
pub open spec fn precedes(a: Seq<char>, b: Seq<char>) -> bool
    decreases a.len(),
{
    b.len() > 0 && (a.len() == 0 || (a[0] as int) < (b[0] as int) || (a[0] == b[0] && precedes(
        a.skip(1),
        b.skip(1),
    )))
}

pub proof fn lemma_precedes_irreflexive(a: Seq<char>)
    ensures
        !precedes(a, a),
    decreases a.len(),
{
    if a.len() > 0 {
        lemma_precedes_irreflexive(a.skip(1));
    }
}

pub proof fn lemma_precedes_transitive(a: Seq<char>, b: Seq<char>, c: Seq<char>)
    requires
        precedes(a, b),
        precedes(b, c),
    ensures
        precedes(a, c),
    decreases a.len(),
{
    if a.len() > 0 && a[0] == b[0] && b[0] == c[0] {
        lemma_precedes_transitive(a.skip(1), b.skip(1), c.skip(1));
    }
}

pub proof fn lemma_precedes_total(a: Seq<char>, b: Seq<char>)
    ensures
        a == b || precedes(a, b) || precedes(b, a),
    decreases a.len(),
{
    if a.len() > 0 && b.len() > 0 && a[0] == b[0] {
        lemma_precedes_total(a.skip(1), b.skip(1));
        if a.skip(1) == b.skip(1) {
            assert(a =~= seq![a[0]] + a.skip(1));
            assert(b =~= seq![b[0]] + b.skip(1));
        }
    } else if a.len() == 0 && b.len() == 0 {
        assert(a =~= b);
    }
}

/// Whether `a` comes before `b` in code point order.
pub fn text_less(a: &str, b: &str) -> (res: bool)
    ensures
        res == precedes(a@, b@),
{
    let ac = to_chars(a);
    let bc = to_chars(b);
    let mut i: usize = 0;
    assert(ac@.skip(0) =~= ac@);
    assert(bc@.skip(0) =~= bc@);
    while i < ac.len() && i < bc.len()
        invariant
            ac@ == a@,
            bc@ == b@,
            i <= ac@.len(),
            i <= bc@.len(),
            precedes(a@, b@) == precedes(ac@.skip(i as int), bc@.skip(i as int)),
        decreases ac@.len() - i,
    {
        let x: char = ac[i];
        let y: char = bc[i];
        assert(ac@.skip(i as int).skip(1) =~= ac@.skip(i + 1));
        assert(bc@.skip(i as int).skip(1) =~= bc@.skip(i + 1));
        if x < y {
            return true;
        }
        if y < x {
            return false;
        }
        i += 1;
    }
    i < bc.len()
}

/// Every element comes before the ones after it, so no element occurs twice.
pub open spec fn strictly_ordered(s: Seq<Seq<char>>) -> bool {
    forall|i: int, j: int| 0 <= i < j < s.len() ==> precedes(#[trigger] s[i], #[trigger] s[j])
}

/// The number of elements at the front that come before `t`.
pub open spec fn place(s: Seq<Seq<char>>, t: Seq<char>) -> int
    decreases s.len(),
{
    if s.len() == 0 || !precedes(s[0], t) {
        0
    } else {
        1 + place(s.skip(1), t)
    }
}

/// `s` with `t` in front of the first element that does not come before it, unless that is `t`
/// itself.
pub open spec fn put_ordered(s: Seq<Seq<char>>, t: Seq<char>) -> Seq<Seq<char>> {
    let k = place(s, t);
    if k < s.len() && s[k] == t {
        s
    } else {
        s.insert(k, t)
    }
}

/// The elements in code point order, each kept once.
pub open spec fn ordered(s: Seq<Seq<char>>) -> Seq<Seq<char>>
    decreases s.len(),
{
    if s.len() == 0 {
        Seq::empty()
    } else {
        put_ordered(ordered(s.drop_last()), s.last())
    }
}

proof fn lemma_place(s: Seq<Seq<char>>, t: Seq<char>, k: int)
    requires
        0 <= k <= s.len(),
        forall|j: int| 0 <= j < k ==> precedes(#[trigger] s[j], t),
        k < s.len() ==> !precedes(s[k], t),
    ensures
        place(s, t) == k,
    decreases s.len(),
{
    if k > 0 {
        assert(precedes(s[0], t));
        assert forall|j: int| 0 <= j < k - 1 implies precedes(#[trigger] s.skip(1)[j], t) by {
            assert(precedes(s[j + 1], t));
        }
        lemma_place(s.skip(1), t, k - 1);
    }
}

proof fn lemma_place_bounds(s: Seq<Seq<char>>, t: Seq<char>)
    ensures
        0 <= place(s, t) <= s.len(),
        forall|j: int| 0 <= j < place(s, t) ==> precedes(#[trigger] s[j], t),
        place(s, t) < s.len() ==> !precedes(s[place(s, t)], t),
    decreases s.len(),
{
    if s.len() > 0 && precedes(s[0], t) {
        lemma_place_bounds(s.skip(1), t);
        let k = place(s.skip(1), t);
        assert forall|j: int| 0 <= j < k + 1 implies precedes(#[trigger] s[j], t) by {
            if j > 0 {
                assert(s.skip(1)[j - 1] == s[j]);
            }
        }
        if k + 1 < s.len() {
            assert(s.skip(1)[k] == s[k + 1]);
        }
    }
}

/// What is put in order is in order, and holds what it held.
pub proof fn lemma_put_ordered(s: Seq<Seq<char>>, t: Seq<char>)
    requires
        strictly_ordered(s),
    ensures
        strictly_ordered(put_ordered(s, t)),
        forall|x: Seq<char>| #[trigger] put_ordered(s, t).contains(x) <==> s.contains(x) || x == t,
{
    lemma_place_bounds(s, t);
    let k = place(s, t);
    let after = put_ordered(s, t);
    if !(k < s.len() && s[k] == t) {
        if k < s.len() {
            lemma_precedes_total(s[k], t);
        }
        assert forall|i: int, j: int| 0 <= i < j < after.len() implies precedes(#[trigger] after[i], #[trigger] after[j]) by {
            if i == k {
                assert(after[j] == s[j - 1]);
                if j - 1 > k {
                    lemma_precedes_transitive(t, s[k], s[j - 1]);
                }
            } else if j == k {
                assert(after[i] == s[i]);
            } else {
                let i0 = if i < k { i } else { i - 1 };
                let j0 = if j < k { j } else { j - 1 };
                assert(precedes(s[i0], s[j0]));
            }
        }
        assert forall|x: Seq<char>| #[trigger] after.contains(x) <==> s.contains(x) || x == t by {
            if after.contains(x) {
                let p = choose|p: int| 0 <= p < after.len() && after[p] == x;
                if p < k {
                    assert(s[p] == x);
                } else if p > k {
                    assert(s[p - 1] == x);
                }
            }
            if s.contains(x) {
                let p = choose|p: int| 0 <= p < s.len() && s[p] == x;
                if p < k {
                    assert(after[p] == x);
                } else {
                    assert(after[p + 1] == x);
                }
            }
            assert(after[k] == t);
        }
    }
}

/// The elements in order are strictly ordered, and are the same elements.
pub proof fn lemma_ordered(s: Seq<Seq<char>>)
    ensures
        strictly_ordered(ordered(s)),
        forall|x: Seq<char>| #[trigger] ordered(s).contains(x) <==> s.contains(x),
    decreases s.len(),
{
    if s.len() > 0 {
        lemma_ordered(s.drop_last());
        lemma_put_ordered(ordered(s.drop_last()), s.last());
        assert forall|x: Seq<char>| #[trigger] ordered(s).contains(x) <==> s.contains(x) by {
            assert(ordered(s).contains(x) <==> s.drop_last().contains(x) || x == s.last());
            if s.contains(x) {
                let p = choose|p: int| 0 <= p < s.len() && s[p] == x;
                if p < s.len() - 1 {
                    assert(s.drop_last()[p] == x);
                }
            }
            if s.drop_last().contains(x) {
                let p = choose|p: int| 0 <= p < s.drop_last().len() && s.drop_last()[p] == x;
                assert(s[p] == x);
            }
        }
    }
}

/// `items` in code point order, each kept once.
pub fn sorted_unique(items: &Vec<String>) -> (res: Vec<String>)
    ensures
        texts(res@) == ordered(texts(items@)),
        strictly_ordered(texts(res@)),
        forall|t: Seq<char>| texts(res@).contains(t) <==> texts(items@).contains(t),
{
    let mut out: Vec<String> = Vec::new();
    let mut i: usize = 0;
    let ghost all = texts(items@);
    assert(all.take(0) =~= Seq::empty());
    assert(texts(out@) =~= Seq::empty());
    while i < items.len()
        invariant
            i <= items@.len(),
            all == texts(items@),
            texts(out@) == ordered(all.take(i as int)),
        decreases items@.len() - i,
    {
        proof {
            assert(all.take(i + 1).drop_last() =~= all.take(i as int));
            assert(all.take(i + 1).last() == items@[i as int]@);
        }
        insert_ordered(&mut out, &items[i]);
        i += 1;
    }
    assert(all.take(i as int) =~= all);
    proof {
        lemma_ordered(all);
    }
    out
}

fn insert_ordered(out: &mut Vec<String>, item: &String)
    ensures
        texts(final(out)@) == put_ordered(texts(old(out)@), item@),
{
    let ghost before = texts(out@);
    let mut k: usize = 0;
    while k < out.len() && text_less(out[k].as_str(), item.as_str())
        invariant
            out@ == old(out)@,
            before == texts(out@),
            k <= out@.len(),
            forall|j: int| 0 <= j < k ==> precedes(#[trigger] before[j], item@),
        decreases out@.len() - k,
    {
        assert(before[k as int] == out@[k as int]@);
        k += 1;
    }
    proof {
        if k < out@.len() {
            assert(before[k as int] == out@[k as int]@);
        }
        lemma_place(before, item@, k as int);
    }
    if k < out.len() && same(out[k].as_str(), item.as_str()) {
        return;
    }
    out.insert(k, item.clone());
    assert(texts(out@) =~= before.insert(k as int, item@));
}

// ---------------------------------------------------------------- white space

/// The characters with the Unicode property `White_Space`.
pub open spec fn is_space(c: char) -> bool {
    let n = c as u32;
    9 <= n <= 13 || n == 32 || n == 0x85 || n == 0xa0 || n == 0x1680 || 0x2000 <= n <= 0x200a || n == 0x2028 || n
        == 0x2029 || n == 0x202f || n == 0x205f || n == 0x3000
}

fn space(c: char) -> (res: bool)
    ensures
        res == is_space(c),
{
    let n: u32 = c as u32;
    (9 <= n && n <= 13) || n == 32 || n == 0x85 || n == 0xa0 || n == 0x1680 || (0x2000 <= n && n <= 0x200a) || n
        == 0x2028 || n == 0x2029 || n == 0x202f || n == 0x205f || n == 0x3000
}

/// `s` without the white space at its end.
pub open spec fn trimmed_end(s: Seq<char>) -> Seq<char>
    decreases s.len(),
{
    if s.len() > 0 && is_space(s.last()) {
        trimmed_end(s.drop_last())
    } else {
        s
    }
}

/// `s` without the white space at its start.
pub open spec fn trimmed_start(s: Seq<char>) -> Seq<char>
    decreases s.len(),
{
    if s.len() > 0 && is_space(s[0]) {
        trimmed_start(s.skip(1))
    } else {
        s
    }
}

/// `s` without the white space around it.
pub open spec fn trimmed(s: Seq<char>) -> Seq<char> {
    trimmed_start(trimmed_end(s))
}

/// `s` without the white space at its end.
pub fn trim_end(s: &str) -> (res: String)
    ensures
        res@ == trimmed_end(s@),
{
    let sc = to_chars(s);
    let mut n: usize = sc.len();
    assert(sc@.take(n as int) =~= sc@);
    while n > 0 && space(sc[n - 1])
        invariant
            n <= sc@.len(),
            sc@ == s@,
            trimmed_end(s@) == trimmed_end(sc@.take(n as int)),
        decreases n,
    {
        assert(sc@.take(n as int).drop_last() =~= sc@.take(n - 1));
        assert(sc@.take(n as int).last() == sc@[n - 1]);
        n -= 1;
    }
    assert(n > 0 ==> sc@.take(n as int).last() == sc@[n - 1]);
    assert(sc@.subrange(0, n as int) =~= sc@.take(n as int));
    from_chars(&sc, 0, n)
}

/// `s` without the white space around it.
pub fn trim(s: &str) -> (res: String)
    ensures
        res@ == trimmed(s@),
{
    let t = trim_end(s);
    let sc = to_chars(t.as_str());
    let mut i: usize = 0;
    assert(sc@.skip(0) =~= sc@);
    while i < sc.len() && space(sc[i])
        invariant
            i <= sc@.len(),
            sc@ == t@,
            trimmed_start(t@) == trimmed_start(sc@.skip(i as int)),
        decreases sc@.len() - i,
    {
        assert(sc@.skip(i as int)[0] == sc@[i as int]);
        assert(sc@.skip(i as int).skip(1) =~= sc@.skip(i + 1));
        i += 1;
    }
    assert(i < sc@.len() ==> sc@.skip(i as int)[0] == sc@[i as int]);
    assert(sc@.subrange(i as int, sc@.len() as int) =~= sc@.skip(i as int));
    from_chars(&sc, i, sc.len())
}

/// `s` without one `\r` at its end.
pub open spec fn without_return(s: Seq<char>) -> Seq<char> {
    if s.len() > 0 && s.last() == '\r' {
        s.drop_last()
    } else {
        s
    }
}

/// The lines of a text that hold anything.
pub open spec fn full_lines(pieces: Seq<Seq<char>>) -> Seq<Seq<char>>
    decreases pieces.len(),
{
    if pieces.len() == 0 {
        Seq::empty()
    } else {
        let before = full_lines(pieces.drop_last());
        let line = without_return(pieces.last());
        if line.len() == 0 {
            before
        } else {
            before.push(line)
        }
    }
}

/// The lines of `s` that hold anything, without the ends of line.
pub fn lines(s: &str) -> (res: Vec<String>)
    ensures
        texts(res@) == full_lines(split_on(s@, '\n')),
{
    let pieces = split_char(s, '\n');
    let ghost all = texts(pieces@);
    let mut out: Vec<String> = Vec::new();
    let mut i: usize = 0;
    assert(all.take(0) =~= Seq::<Seq<char>>::empty());
    assert(texts(out@) =~= Seq::<Seq<char>>::empty());
    while i < pieces.len()
        invariant
            i <= pieces@.len(),
            all == texts(pieces@),
            texts(out@) == full_lines(all.take(i as int)),
        decreases pieces@.len() - i,
    {
        assert(all.take(i + 1).drop_last() =~= all.take(i as int));
        assert(all.take(i + 1).last() == pieces@[i as int]@);
        let sc = to_chars(pieces[i].as_str());
        let n: usize = if sc.len() > 0 && sc[sc.len() - 1] == '\r' {
            sc.len() - 1
        } else {
            sc.len()
        };
        assert(sc@.subrange(0, n as int) =~= without_return(all[i as int]));
        if n > 0 {
            let line = from_chars(&sc, 0, n);
            proof {
                lemma_texts_push(out@, line);
            }
            out.push(line);
        }
        i += 1;
    }
    assert(all.take(i as int) =~= all);
    out
}

// ------------------------------------------------------- splitting by a string

/// The pieces of `cur + s` between the occurrences of `sep`, which is not empty, in `s`.
pub open spec fn split_from(s: Seq<char>, sep: Seq<char>, cur: Seq<char>) -> Seq<Seq<char>>
    decreases s.len(),
{
    if sep.len() == 0 || s.len() < sep.len() {
        seq![cur + s]
    } else if begins_with(s, sep) {
        seq![cur] + split_from(s.skip(sep.len() as int), sep, Seq::empty())
    } else {
        split_from(s.skip(1), sep, cur.push(s[0]))
    }
}

/// The pieces of `s` between the occurrences of `sep`. An empty `sep` stands before and behind
/// every character.
pub open spec fn split_by(s: Seq<char>, sep: Seq<char>) -> Seq<Seq<char>> {
    if sep.len() == 0 {
        seq![Seq::<char>::empty()] + s.map_values(|c: char| seq![c]) + seq![Seq::<char>::empty()]
    } else {
        split_from(s, sep, Seq::empty())
    }
}

fn split_chars(sc: &Vec<char>) -> (res: Vec<String>)
    ensures
        texts(res@) == seq![Seq::<char>::empty()] + sc@.map_values(|c: char| seq![c]) + seq![Seq::<char>::empty()],
{
    let mut out: Vec<String> = Vec::new();
    out.push(String::new());
    let mut i: usize = 0;
    assert(texts(out@) =~= seq![Seq::<char>::empty()] + sc@.take(0).map_values(|c: char| seq![c]));
    while i < sc.len()
        invariant
            i <= sc@.len(),
            texts(out@) == seq![Seq::<char>::empty()] + sc@.take(i as int).map_values(|c: char| seq![c]),
        decreases sc@.len() - i,
    {
        let mut piece = String::new();
        piece.push(sc[i]);
        let ghost before = out@;
        proof {
            lemma_texts_push(out@, piece);
            assert(piece@ =~= seq![sc@[i as int]]);
            assert(sc@.take(i + 1).map_values(|c: char| seq![c]) =~= sc@.take(i as int).map_values(
                |c: char| seq![c],
            ).push(seq![sc@[i as int]]));
        }
        out.push(piece);
        i += 1;
        assert(texts(out@) =~= seq![Seq::<char>::empty()] + sc@.take(i as int).map_values(|c: char| seq![c]));
    }
    let last = String::new();
    proof {
        lemma_texts_push(out@, last);
        assert(sc@.take(i as int) =~= sc@);
        assert(last@ =~= Seq::<char>::empty());
    }
    out.push(last);
    assert(texts(out@) =~= seq![Seq::<char>::empty()] + sc@.map_values(|c: char| seq![c]) + seq![Seq::<char>::empty()]);
    out
}

/// The pieces of `s` between the occurrences of `sep`.
pub fn split_text(s: &str, sep: &str) -> (res: Vec<String>)
    ensures
        texts(res@) == split_by(s@, sep@),
{
    let sc = to_chars(s);
    let pc = to_chars(sep);
    if pc.len() == 0 {
        return split_chars(&sc);
    }
    let mut out: Vec<String> = Vec::new();
    let mut cur = String::new();
    let mut i: usize = 0;
    let n: usize = sc.len();
    proof {
        assert(sc@.skip(0) =~= sc@);
        assert(texts(out@) + split_from(sc@, sep@, Seq::empty()) =~= split_from(sc@, sep@, Seq::empty()));
        assert(cur@ =~= Seq::<char>::empty());
    }
    while n - i >= pc.len()
        invariant
            sc@ == s@,
            pc@ == sep@,
            n == sc@.len(),
            pc@.len() > 0,
            i <= n,
            texts(out@) + split_from(sc@.skip(i as int), sep@, cur@) == split_from(s@, sep@, Seq::empty()),
        decreases n - i,
    {
        let ghost rest = sc@.skip(i as int);
        let ghost before = out@;
        proof {
            assert(rest.subrange(0, pc@.len() as int) =~= sc@.subrange(i as int, i + pc@.len()));
        }
        if occurs_here(&sc, &pc, i) {
            proof {
                lemma_texts_push(out@, cur);
                assert(rest.skip(pc@.len() as int) =~= sc@.skip(i + pc@.len()));
                assert(texts(before).push(cur@) + split_from(sc@.skip(i + pc@.len()), sep@, Seq::empty()) =~= texts(
                    before,
                ) + (seq![cur@] + split_from(sc@.skip(i + pc@.len()), sep@, Seq::empty())));
            }
            out.push(cur);
            cur = String::new();
            i += pc.len();
            assert(cur@ =~= Seq::<char>::empty());
        } else {
            proof {
                assert(rest.skip(1) =~= sc@.skip(i + 1));
                assert(rest[0] == sc@[i as int]);
            }
            cur.push(sc[i]);
            i += 1;
        }
    }
    let tail = from_chars(&sc, i, n);
    let ghost cur0 = cur@;
    cur.append(tail.as_str());
    proof {
        assert(sc@.subrange(i as int, n as int) =~= sc@.skip(i as int));
        lemma_texts_push(out@, cur);
        assert(texts(out@).push(cur@) =~= texts(out@) + seq![cur0 + sc@.skip(i as int)]);
    }
    out.push(cur);
    out
}

/// `s` with every occurrence of `from` replaced by `to`, from the left.
pub open spec fn replaced(s: Seq<char>, from: Seq<char>, to: Seq<char>) -> Seq<char> {
    join_with(split_by(s, from), to)
}

/// `s` with every occurrence of `from` replaced by `to`, from the left.
pub fn replace_text(s: &str, from: &str, to: &str) -> (res: String)
    ensures
        res@ == replaced(s@, from@, to@),
{
    join(&split_text(s, from), to)
}

/// The lower case form of a text.
pub uninterp spec fn lowered(s: Seq<char>) -> Seq<char>;

/// The upper case form of a text.
pub uninterp spec fn uppered(s: Seq<char>) -> Seq<char>;

/// Calls `str::to_lowercase`. The result is a function of the text, by the tables of Unicode.
#[verifier::external_body]
pub(crate) fn lower(s: &str) -> (res: String)
    ensures
        res@ == lowered(s@),
{
    s.to_lowercase()
}

/// Calls `str::to_uppercase`. The result is a function of the text, by the tables of Unicode.
#[verifier::external_body]
pub(crate) fn upper(s: &str) -> (res: String)
    ensures
        res@ == uppered(s@),
{
    s.to_uppercase()
}

/// A text in quotes, with escapes.
pub uninterp spec fn quoted(s: Seq<char>) -> Seq<char>;

/// Calls `format!` with `{:?}` on a string: the text in quotes, with escapes. Which characters are
/// escaped is left to `std`; the result is a function of the text.
#[verifier::external_body]
pub(crate) fn quote(s: &str) -> (res: String)
    ensures
        res@ == quoted(s@),
{
    format!("{:?}", s)
}

} // verus!
