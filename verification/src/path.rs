//! Paths, written with `/` between their parts.
//!
//! A path is a string. What it denotes is decided by its parts; `camino` takes paths apart.

use crate::text::{text_less, to_chars};
#[allow(unused_imports)]
use crate::text::{lemma_split_nonempty, lemma_precedes_irreflexive, lemma_precedes_total, lemma_precedes_transitive, precedes, split_on, texts};
use vstd::prelude::*;

verus! {

/// A part of a path.
#[derive(Debug, PartialEq, Eq)]
pub enum PathPart {
    /// What stands before the root on platforms that have such a thing.
    Prefix(String),
    /// The leading `/`.
    RootDir,
    /// A leading `.`.
    CurDir,
    /// `..`
    ParentDir,
    /// A name.
    Normal(String),
}

/// What a part of a path is.
pub enum PartView {
    Prefix(Seq<char>),
    RootDir,
    CurDir,
    ParentDir,
    Normal(Seq<char>),
}

impl View for PathPart {
    type V = PartView;

    open spec fn view(&self) -> PartView {
        match self {
            PathPart::Prefix(t) => PartView::Prefix(t@),
            PathPart::RootDir => PartView::RootDir,
            PathPart::CurDir => PartView::CurDir,
            PathPart::ParentDir => PartView::ParentDir,
            PathPart::Normal(t) => PartView::Normal(t@),
        }
    }
}

impl Clone for PathPart {
    fn clone(&self) -> (res: Self)
        ensures
            res@ == self@,
    {
        match self {
            PathPart::Prefix(t) => PathPart::Prefix(t.clone()),
            PathPart::RootDir => PathPart::RootDir,
            PathPart::CurDir => PathPart::CurDir,
            PathPart::ParentDir => PathPart::ParentDir,
            PathPart::Normal(t) => PathPart::Normal(t.clone()),
        }
    }
}

/// The views of a list of parts.
pub open spec fn part_views(parts: Seq<PathPart>) -> Seq<PartView> {
    parts.map_values(|p: PathPart| p@)
}

/// The parts that the pieces between the separators stand for: empty pieces and `.` stand for
/// nothing.
pub open spec fn piece_parts(pieces: Seq<Seq<char>>) -> Seq<PartView>
    decreases pieces.len(),
{
    if pieces.len() == 0 {
        Seq::empty()
    } else {
        let before = piece_parts(pieces.drop_last());
        let piece = pieces.last();
        if piece.len() == 0 || piece == seq!['.'] {
            before
        } else if piece == seq!['.', '.'] {
            before.push(PartView::ParentDir)
        } else {
            before.push(PartView::Normal(piece))
        }
    }
}

/// The path begins with `/`.
pub open spec fn has_root(path: Seq<char>) -> bool {
    path.len() > 0 && path[0] == '/'
}

/// The parts of a path: the root or a leading `.`, then what stands between the separators.
pub open spec fn path_parts(path: Seq<char>) -> Seq<PartView> {
    let pieces = split_on(path, '/');
    let head = if has_root(path) {
        seq![PartView::RootDir]
    } else if pieces[0] == seq!['.'] {
        seq![PartView::CurDir]
    } else {
        Seq::empty()
    };
    head + piece_parts(pieces)
}

/// Calls `camino::Utf8Path::components`. On platforms that separate by `/` alone, the components
/// are the root where the path begins with `/`, the current directory where its first piece is
/// `.`, and then one for each piece between separators that is neither empty nor `.`.
#[verifier::external_body]
pub(crate) fn components(path: &str) -> (res: Vec<PathPart>)
    ensures
        part_views(res@) == path_parts(path@),
{
    camino::Utf8Path::new(path)
        .components()
        .map(|c| match c {
            camino::Utf8Component::Prefix(p) => PathPart::Prefix(p.as_str().to_owned()),
            camino::Utf8Component::RootDir => PathPart::RootDir,
            camino::Utf8Component::CurDir => PathPart::CurDir,
            camino::Utf8Component::ParentDir => PathPart::ParentDir,
            camino::Utf8Component::Normal(t) => PathPart::Normal(t.to_owned()),
        })
        .collect()
}

/// A path that is written out of its parts and nothing else: no separator is doubled or stands at
/// the end, and no `.` is in the middle.
pub open spec fn is_plain(path: Seq<char>) -> bool {
    path == path_text(path_parts(path))
}

/// The text that `camino` gives for the path without its last part.
pub uninterp spec fn parent_text(path: Seq<char>) -> Option<Seq<char>>;

/// Calls `camino::Utf8Path::parent`: the path without its last part, or nothing where the path
/// has no part or ends in a root. The text is a function of the path's text. Its parts are stated,
/// and for a plain path the text itself; how the text of any other path is cut out is left unsaid.
#[verifier::external_body]
fn cut_parent(path: &str) -> (res: Option<String>)
    ensures
        crate::text::opt_text(res) == parent_text(path@),
        res is None <==> path_parts(path@).len() == 0 || path_parts(path@).last() is RootDir,
        res is Some ==> path_parts(res->0@) == path_parts(path@).drop_last(),
        res is Some && is_plain(path@) ==> res->0@ == path_text(path_parts(path@).drop_last()),
{
    match camino::Utf8Path::new(path).parent() {
        Some(p) => Some(p.as_str().to_owned()),
        None => None,
    }
}

/// The path without its last part; nothing where it has no part or is a root.
pub open spec fn parent_of(path: Seq<char>) -> Option<Seq<char>> {
    let parts = path_parts(path);
    if parts.len() == 0 || parts.last() is RootDir {
        None
    } else if is_plain(path) {
        Some(path_text(parts.drop_last()))
    } else {
        parent_text(path)
    }
}

/// The path without its last part.
pub(crate) fn parent(path: &str) -> (res: Option<String>)
    ensures
        crate::text::opt_text(res) == parent_of(path@),
        res is None <==> path_parts(path@).len() == 0 || path_parts(path@).last() is RootDir,
        res is Some ==> path_parts(res->0@) == path_parts(path@).drop_last(),
{
    cut_parent(path)
}

/// The text that `camino` leaves of `path` when the parts of `base` are taken off its front.
pub uninterp spec fn stripped_text(path: Seq<char>, base: Seq<char>) -> Option<Seq<char>>;

/// Calls `camino::Utf8Path::strip_prefix`: what is left of `path` behind the parts of `base`, or
/// nothing where these are not its first parts. The text is a function of the two texts. Its parts
/// are stated, and for a plain path the text itself; how the text of any other path is cut out is
/// left unsaid.
#[verifier::external_body]
fn cut_prefix(path: &str, base: &str) -> (res: Option<String>)
    ensures
        crate::text::opt_text(res) == stripped_text(path@, base@),
        res is Some <==> path_parts(base@).is_prefix_of(path_parts(path@)),
        res is Some ==> path_parts(res->0@) == path_parts(path@).skip(path_parts(base@).len() as int),
        res is Some && is_plain(path@) ==> res->0@ == path_text(
            path_parts(path@).skip(path_parts(base@).len() as int),
        ),
{
    match camino::Utf8Path::new(path).strip_prefix(base) {
        Ok(p) => Some(p.as_str().to_owned()),
        Err(_) => None,
    }
}

/// What is left of `path` behind the parts of `base`; nothing where these are not its first parts.
pub open spec fn stripped(path: Seq<char>, base: Seq<char>) -> Option<Seq<char>> {
    let parts = path_parts(path);
    let front = path_parts(base);
    if !front.is_prefix_of(parts) {
        None
    } else if is_plain(path) {
        Some(path_text(parts.skip(front.len() as int)))
    } else {
        stripped_text(path, base)
    }
}

/// What is left of `path` behind the parts of `base`.
pub(crate) fn strip_prefix(path: &str, base: &str) -> (res: Option<String>)
    ensures
        crate::text::opt_text(res) == stripped(path@, base@),
        res is Some <==> path_parts(base@).is_prefix_of(path_parts(path@)),
        res is Some ==> path_parts(res->0@) == path_parts(path@).skip(path_parts(base@).len() as int),
{
    cut_prefix(path, base)
}

/// `b`, seen from the directory `a`.
pub open spec fn joined(a: Seq<char>, b: Seq<char>) -> Seq<char> {
    if has_root(b) || a.len() == 0 {
        b
    } else if a.last() == '/' {
        a + b
    } else {
        a + seq!['/'] + b
    }
}

/// `b`, seen from the directory `a`: `b` itself where it begins with `/`, and else `b` behind
/// `a` with one `/` between them.
pub fn join(a: &str, b: &str) -> (res: String)
    ensures
        res@ == joined(a@, b@),
{
    let ac = to_chars(a);
    let bc = to_chars(b);
    if ac.len() == 0 || (bc.len() > 0 && bc[0] == '/') {
        return b.to_owned();
    }
    let mut out = a.to_owned();
    if ac[ac.len() - 1] != '/' {
        out.push('/');
    }
    out.append(b);
    assert(out@ =~= joined(a@, b@));
    out
}

/// The text of a part.
pub open spec fn part_text(p: PartView) -> Seq<char> {
    match p {
        PartView::Prefix(t) => t,
        PartView::RootDir => seq!['/'],
        PartView::CurDir => seq!['.'],
        PartView::ParentDir => seq!['.', '.'],
        PartView::Normal(t) => t,
    }
}

/// The path that the parts make, each seen from those before it.
pub open spec fn path_text(parts: Seq<PartView>) -> Seq<char>
    decreases parts.len(),
{
    if parts.len() == 0 {
        Seq::empty()
    } else {
        joined(path_text(parts.drop_last()), part_text(parts.last()))
    }
}

/// The text of a part.
pub fn text_of_part(p: &PathPart) -> (res: String)
    ensures
        res@ == part_text(p@),
{
    match p {
        PathPart::Prefix(t) => t.clone(),
        PathPart::RootDir => {
            proof {
                reveal_strlit("/");
            }
            assert("/"@ =~= seq!['/']);
            "/".to_owned()
        },
        PathPart::CurDir => {
            proof {
                reveal_strlit(".");
            }
            assert("."@ =~= seq!['.']);
            ".".to_owned()
        },
        PathPart::ParentDir => {
            proof {
                reveal_strlit("..");
            }
            assert(".."@ =~= seq!['.', '.']);
            "..".to_owned()
        },
        PathPart::Normal(t) => t.clone(),
    }
}

/// Joins parts to a path.
pub fn join_parts(parts: &Vec<PathPart>) -> (res: String)
    ensures
        res@ == path_text(part_views(parts@)),
{
    let ghost views = part_views(parts@);
    let mut out = String::new();
    let mut i: usize = 0;
    assert(views.take(0) =~= Seq::empty());
    assert(out@ =~= Seq::empty());
    while i < parts.len()
        invariant
            i <= parts@.len(),
            views == part_views(parts@),
            out@ == path_text(views.take(i as int)),
        decreases parts@.len() - i,
    {
        assert(views.take(i + 1).drop_last() =~= views.take(i as int));
        assert(views.take(i + 1).last() == parts@[i as int]@);
        let piece = text_of_part(&parts[i]);
        out = join(out.as_str(), piece.as_str());
        i += 1;
    }
    assert(views.take(i as int) =~= views);
    out
}

/// Whether a path begins with `/`.
pub fn is_absolute(path: &str) -> (res: bool)
    ensures
        res == has_root(path@),
{
    let chars = to_chars(path);
    chars.len() > 0 && chars[0] == '/'
}

/// The name that a path ends in.
pub open spec fn last_name(path: Seq<char>) -> Option<Seq<char>> {
    let parts = path_parts(path);
    if parts.len() > 0 && parts.last() is Normal {
        Some(parts.last()->Normal_0)
    } else {
        None
    }
}

/// The name that a path ends in; nothing where it ends in the root, in `.` or in `..`.
pub fn file_name(path: &str) -> (res: Option<String>)
    ensures
        crate::text::opt_text(res) == last_name(path@),
{
    let parts = components(path);
    let ghost views = path_parts(path@);
    if parts.len() == 0 {
        return None;
    }
    assert(views.last() == parts@[parts.len() - 1]@);
    match &parts[parts.len() - 1] {
        PathPart::Normal(t) => Some(t.clone()),
        _ => None,
    }
}

/// Whether two parts are the same.
pub fn same_part(a: &PathPart, b: &PathPart) -> (res: bool)
    ensures
        res == (a@ == b@),
{
    match (a, b) {
        (PathPart::Prefix(s), PathPart::Prefix(t)) => *s == *t,
        (PathPart::RootDir, PathPart::RootDir) => true,
        (PathPart::CurDir, PathPart::CurDir) => true,
        (PathPart::ParentDir, PathPart::ParentDir) => true,
        (PathPart::Normal(s), PathPart::Normal(t)) => *s == *t,
        _ => false,
    }
}

/// The number of parts that two lists have in common at the front.
pub open spec fn common_len(a: Seq<PartView>, b: Seq<PartView>) -> nat
    decreases a.len(),
{
    if a.len() == 0 || b.len() == 0 || a[0] != b[0] {
        0
    } else {
        1 + common_len(a.skip(1), b.skip(1))
    }
}

pub proof fn lemma_common_len(a: Seq<PartView>, b: Seq<PartView>)
    ensures
        common_len(a, b) <= a.len(),
        common_len(a, b) <= b.len(),
        a.take(common_len(a, b) as int) == b.take(common_len(a, b) as int),
    decreases a.len(),
{
    let n = common_len(a, b);
    if n > 0 {
        lemma_common_len(a.skip(1), b.skip(1));
        let m = common_len(a.skip(1), b.skip(1));
        assert(a.take(n as int) =~= seq![a[0]] + a.skip(1).take(m as int));
        assert(b.take(n as int) =~= seq![b[0]] + b.skip(1).take(m as int));
    } else {
        assert(a.take(0) =~= b.take(0));
    }
}

/// The number of parts that two lists have in common at the front.
pub fn count_common(a: &Vec<PathPart>, b: &Vec<PathPart>) -> (res: usize)
    ensures
        res == common_len(part_views(a@), part_views(b@)),
        res <= a@.len(),
        res <= b@.len(),
{
    let ghost x = part_views(a@);
    let ghost y = part_views(b@);
    let mut i: usize = 0;
    assert(x.skip(0) =~= x);
    assert(y.skip(0) =~= y);
    while i < a.len() && i < b.len() && same_part(&a[i], &b[i])
        invariant
            x == part_views(a@),
            y == part_views(b@),
            i <= a@.len(),
            i <= b@.len(),
            common_len(x, y) == i + common_len(x.skip(i as int), y.skip(i as int)),
        decreases a@.len() - i,
    {
        assert(x.skip(i as int).skip(1) =~= x.skip(i + 1));
        assert(y.skip(i as int).skip(1) =~= y.skip(i + 1));
        assert(x.skip(i as int)[0] == a@[i as int]@);
        assert(y.skip(i as int)[0] == b@[i as int]@);
        i += 1;
    }
    proof {
        if i < a@.len() && i < b@.len() {
            assert(x.skip(i as int)[0] == a@[i as int]@);
            assert(y.skip(i as int)[0] == b@[i as int]@);
        }
    }
    i
}

/// The parts of `base` are the first parts of `path`.
pub open spec fn lies_under(path: Seq<char>, base: Seq<char>) -> bool {
    path_parts(base).is_prefix_of(path_parts(path))
}

/// Whether the parts of `base` are the first parts of `path`.
pub fn starts_with_path(path: &str, base: &str) -> (res: bool)
    ensures
        res == lies_under(path@, base@),
{
    let p = components(path);
    let b = components(base);
    let n: usize = count_common(&b, &p);
    let ghost x = path_parts(base@);
    let ghost y = path_parts(path@);
    proof {
        lemma_common_len(x, y);
        if x.is_prefix_of(y) {
            lemma_common_of_prefix(x, y);
        }
        if n == x.len() {
            assert(x.take(n as int) =~= x);
            assert(y.take(n as int) =~= y.subrange(0, x.len() as int));
        }
    }
    n == b.len()
}

pub proof fn lemma_common_of_prefix(x: Seq<PartView>, y: Seq<PartView>)
    requires
        x.is_prefix_of(y),
    ensures
        common_len(x, y) == x.len(),
    decreases x.len(),
{
    if x.len() > 0 {
        assert(x[0] == y[0]);
        assert(x.skip(1) =~= y.skip(1).subrange(0, x.len() - 1));
        lemma_common_of_prefix(x.skip(1), y.skip(1));
    }
}

/// Two paths have the same parts.
pub open spec fn same_parts(a: Seq<char>, b: Seq<char>) -> bool {
    path_parts(a) == path_parts(b)
}

/// Whether two paths have the same parts.
pub fn same_path(a: &str, b: &str) -> (res: bool)
    ensures
        res == same_parts(a@, b@),
{
    let x = components(a);
    let y = components(b);
    assert(part_views(x@).len() == x@.len());
    assert(part_views(y@).len() == y@.len());
    if x.len() != y.len() {
        return false;
    }
    let mut i: usize = 0;
    while i < x.len()
        invariant
            x@.len() == y@.len(),
            part_views(x@) == path_parts(a@),
            part_views(y@) == path_parts(b@),
            i <= x@.len(),
            forall|j: int| 0 <= j < i ==> part_views(x@)[j] == part_views(y@)[j],
        decreases x@.len() - i,
    {
        if !same_part(&x[i], &y[i]) {
            assert(part_views(x@)[i as int] != part_views(y@)[i as int]);
            return false;
        }
        assert(part_views(x@)[i as int] == part_views(y@)[i as int]);
        i += 1;
    }
    assert(part_views(x@) =~= part_views(y@));
    true
}

// ------------------------------------------------------------------ ordering

/// The order of the kinds of parts.
pub open spec fn part_rank(p: PartView) -> int {
    match p {
        PartView::Prefix(_) => 0,
        PartView::RootDir => 1,
        PartView::CurDir => 2,
        PartView::ParentDir => 3,
        PartView::Normal(_) => 4,
    }
}

/// The text of a prefix or of a name.
pub open spec fn part_name(p: PartView) -> Seq<char> {
    match p {
        PartView::Prefix(t) => t,
        PartView::Normal(t) => t,
        _ => Seq::empty(),
    }
}

/// `a` comes before `b`: by kind, and then by text.
pub open spec fn part_precedes(a: PartView, b: PartView) -> bool {
    part_rank(a) < part_rank(b) || (part_rank(a) == part_rank(b) && precedes(part_name(a), part_name(b)))
}

/// `a` comes before `b`: at the first part in which they differ.
pub open spec fn parts_precede(a: Seq<PartView>, b: Seq<PartView>) -> bool
    decreases a.len(),
{
    b.len() > 0 && (a.len() == 0 || part_precedes(a[0], b[0]) || (a[0] == b[0] && parts_precede(a.skip(1), b.skip(1))))
}

/// The path `a` comes before the path `b`.
pub open spec fn path_precedes(a: Seq<char>, b: Seq<char>) -> bool {
    parts_precede(path_parts(a), path_parts(b))
}

fn part_less(a: &PathPart, b: &PathPart) -> (res: bool)
    ensures
        res == part_precedes(a@, b@),
{
    proof {
        lemma_precedes_irreflexive(Seq::empty());
    }
    match (a, b) {
        (PathPart::Prefix(s), PathPart::Prefix(t)) => text_less(s.as_str(), t.as_str()),
        (PathPart::Normal(s), PathPart::Normal(t)) => text_less(s.as_str(), t.as_str()),
        _ => rank_of(a) < rank_of(b),
    }
}

fn rank_of(p: &PathPart) -> (res: u8)
    ensures
        res == part_rank(p@),
{
    match p {
        PathPart::Prefix(_) => 0,
        PathPart::RootDir => 1,
        PathPart::CurDir => 2,
        PathPart::ParentDir => 3,
        PathPart::Normal(_) => 4,
    }
}

/// Whether the path `a` comes before the path `b`.
pub fn path_less(a: &str, b: &str) -> (res: bool)
    ensures
        res == path_precedes(a@, b@),
{
    let x = components(a);
    let y = components(b);
    let ghost u = path_parts(a@);
    let ghost v = path_parts(b@);
    let mut i: usize = 0;
    assert(u.skip(0) =~= u);
    assert(v.skip(0) =~= v);
    while i < x.len() && i < y.len()
        invariant
            u == part_views(x@),
            v == part_views(y@),
            u == path_parts(a@),
            v == path_parts(b@),
            i <= x@.len(),
            i <= y@.len(),
            parts_precede(u, v) == parts_precede(u.skip(i as int), v.skip(i as int)),
        decreases x@.len() - i,
    {
        assert(u.skip(i as int)[0] == x@[i as int]@);
        assert(v.skip(i as int)[0] == y@[i as int]@);
        assert(u.skip(i as int).skip(1) =~= u.skip(i + 1));
        assert(v.skip(i as int).skip(1) =~= v.skip(i + 1));
        if part_less(&x[i], &y[i]) {
            return true;
        }
        if !same_part(&x[i], &y[i]) {
            return false;
        }
        i += 1;
    }
    i < y.len()
}

/// The number of paths at the front that come before `t`.
pub open spec fn path_place(s: Seq<Seq<char>>, t: Seq<char>) -> int
    decreases s.len(),
{
    if s.len() == 0 || !path_precedes(s[0], t) {
        0
    } else {
        1 + path_place(s.skip(1), t)
    }
}

/// `s` with `t` in front of the first path that does not come before it, unless that is the same
/// path.
pub open spec fn put_path(s: Seq<Seq<char>>, t: Seq<char>) -> Seq<Seq<char>> {
    let k = path_place(s, t);
    if k < s.len() && same_parts(s[k], t) {
        s
    } else {
        s.insert(k, t)
    }
}

/// The paths in order, each kept once, as it was written first.
pub open spec fn ordered_paths(s: Seq<Seq<char>>) -> Seq<Seq<char>>
    decreases s.len(),
{
    if s.len() == 0 {
        Seq::empty()
    } else {
        put_path(ordered_paths(s.drop_last()), s.last())
    }
}

proof fn lemma_path_place(s: Seq<Seq<char>>, t: Seq<char>, k: int)
    requires
        0 <= k <= s.len(),
        forall|j: int| 0 <= j < k ==> path_precedes(#[trigger] s[j], t),
        k < s.len() ==> !path_precedes(s[k], t),
    ensures
        path_place(s, t) == k,
    decreases s.len(),
{
    if k > 0 {
        assert(path_precedes(s[0], t));
        assert forall|j: int| 0 <= j < k - 1 implies path_precedes(#[trigger] s.skip(1)[j], t) by {
            assert(path_precedes(s[j + 1], t));
        }
        lemma_path_place(s.skip(1), t, k - 1);
    }
}

/// The paths in order, each kept once, as it was written first.
pub fn sorted_paths(items: &Vec<String>) -> (res: Vec<String>)
    ensures
        texts(res@) == ordered_paths(texts(items@)),
{
    let ghost all = texts(items@);
    let mut out: Vec<String> = Vec::new();
    let mut i: usize = 0;
    assert(all.take(0) =~= Seq::empty());
    assert(texts(out@) =~= Seq::empty());
    while i < items.len()
        invariant
            i <= items@.len(),
            all == texts(items@),
            texts(out@) == ordered_paths(all.take(i as int)),
        decreases items@.len() - i,
    {
        let ghost before = texts(out@);
        let mut k: usize = 0;
        while k < out.len() && path_less(out[k].as_str(), items[i].as_str())
            invariant
                i < items@.len(),
                before == texts(out@),
                k <= out@.len(),
                forall|j: int| 0 <= j < k ==> path_precedes(#[trigger] before[j], items@[i as int]@),
            decreases out@.len() - k,
        {
            assert(before[k as int] == out@[k as int]@);
            k += 1;
        }
        proof {
            if k < out@.len() {
                assert(before[k as int] == out@[k as int]@);
            }
            lemma_path_place(before, items@[i as int]@, k as int);
            assert(all.take(i + 1).drop_last() =~= all.take(i as int));
            assert(all.take(i + 1).last() == items@[i as int]@);
        }
        if !(k < out.len() && same_path(out[k].as_str(), items[i].as_str())) {
            out.insert(k, items[i].clone());
            assert(texts(out@) =~= before.insert(k as int, items@[i as int]@));
        }
        i += 1;
    }
    assert(all.take(i as int) =~= all);
    out
}

/// Whether one of the paths has the parts of `path`.
pub open spec fn has_path(paths: Seq<Seq<char>>, path: Seq<char>) -> bool {
    exists|i: int| 0 <= i < paths.len() && same_parts(#[trigger] paths[i], path)
}

/// Whether one of the paths has the parts of `path`.
pub fn contains_path(paths: &Vec<String>, path: &str) -> (res: bool)
    ensures
        res == has_path(texts(paths@), path@),
{
    let ghost all = texts(paths@);
    let mut i: usize = 0;
    while i < paths.len()
        invariant
            i <= paths@.len(),
            all == texts(paths@),
            forall|j: int| 0 <= j < i ==> !same_parts(#[trigger] all[j], path@),
        decreases paths@.len() - i,
    {
        assert(all[i as int] == paths@[i as int]@);
        if same_path(paths[i].as_str(), path) {
            return true;
        }
        i += 1;
    }
    false
}

// ------------------------------------------------------------- about the order

pub proof fn lemma_part_order(a: PartView, b: PartView, c: PartView)
    ensures
        !part_precedes(a, a),
        a == b || part_precedes(a, b) || part_precedes(b, a),
        part_precedes(a, b) && part_precedes(b, c) ==> part_precedes(a, c),
{
    lemma_precedes_irreflexive(part_name(a));
    lemma_precedes_total(part_name(a), part_name(b));
    if precedes(part_name(a), part_name(b)) && precedes(part_name(b), part_name(c)) {
        lemma_precedes_transitive(part_name(a), part_name(b), part_name(c));
    }
}

proof fn lemma_parts_transitive(a: Seq<PartView>, b: Seq<PartView>, c: Seq<PartView>)
    requires
        parts_precede(a, b),
        parts_precede(b, c),
    ensures
        parts_precede(a, c),
    decreases a.len(),
{
    if a.len() > 0 {
        lemma_part_order(a[0], b[0], c[0]);
        if a[0] == b[0] && b[0] == c[0] && !part_precedes(a[0], b[0]) && !part_precedes(b[0], c[0]) {
            lemma_parts_transitive(a.skip(1), b.skip(1), c.skip(1));
        }
    }
}

proof fn lemma_parts_total(a: Seq<PartView>, b: Seq<PartView>)
    ensures
        a == b || parts_precede(a, b) || parts_precede(b, a),
    decreases a.len(),
{
    if a.len() > 0 && b.len() > 0 {
        lemma_part_order(a[0], b[0], b[0]);
        if a[0] == b[0] {
            lemma_parts_total(a.skip(1), b.skip(1));
            if a.skip(1) == b.skip(1) {
                assert(a =~= seq![a[0]] + a.skip(1));
                assert(b =~= seq![b[0]] + b.skip(1));
            }
        }
    } else if a.len() == 0 && b.len() == 0 {
        assert(a =~= b);
    }
}

/// Every path comes before those after it, so no path is there twice.
pub open spec fn paths_ordered(s: Seq<Seq<char>>) -> bool {
    forall|i: int, j: int| 0 <= i < j < s.len() ==> path_precedes(#[trigger] s[i], #[trigger] s[j])
}

proof fn lemma_path_place_bounds(s: Seq<Seq<char>>, t: Seq<char>)
    ensures
        0 <= path_place(s, t) <= s.len(),
        forall|j: int| 0 <= j < path_place(s, t) ==> path_precedes(#[trigger] s[j], t),
        path_place(s, t) < s.len() ==> !path_precedes(s[path_place(s, t)], t),
    decreases s.len(),
{
    if s.len() > 0 && path_precedes(s[0], t) {
        lemma_path_place_bounds(s.skip(1), t);
        let k = path_place(s.skip(1), t);
        assert forall|j: int| 0 <= j < k + 1 implies path_precedes(#[trigger] s[j], t) by {
            if j > 0 {
                assert(s.skip(1)[j - 1] == s[j]);
            }
        }
        if k + 1 < s.len() {
            assert(s.skip(1)[k] == s[k + 1]);
        }
    }
}

/// What is put in order is in order, and holds the paths that it held.
pub proof fn lemma_put_path(s: Seq<Seq<char>>, t: Seq<char>)
    requires
        paths_ordered(s),
    ensures
        paths_ordered(put_path(s, t)),
        forall|x: Seq<char>| #[trigger] has_path(put_path(s, t), x) <==> has_path(s, x) || same_parts(t, x),
{
    lemma_path_place_bounds(s, t);
    let k = path_place(s, t);
    let after = put_path(s, t);
    if k < s.len() && same_parts(s[k], t) {
        assert forall|x: Seq<char>| #[trigger] has_path(after, x) <==> has_path(s, x) || same_parts(t, x) by {
            if same_parts(t, x) {
                assert(same_parts(s[k], x));
            }
        }
    } else {
        if k < s.len() {
            lemma_parts_total(path_parts(s[k]), path_parts(t));
        }
        assert forall|i: int, j: int| 0 <= i < j < after.len() implies path_precedes(
            #[trigger] after[i],
            #[trigger] after[j],
        ) by {
            if i == k {
                assert(after[j] == s[j - 1]);
                if j - 1 > k {
                    lemma_parts_transitive(path_parts(t), path_parts(s[k]), path_parts(s[j - 1]));
                }
            } else if j == k {
                assert(after[i] == s[i]);
            } else {
                let i0 = if i < k { i } else { i - 1 };
                let j0 = if j < k { j } else { j - 1 };
                assert(path_precedes(s[i0], s[j0]));
            }
        }
        assert forall|x: Seq<char>| #[trigger] has_path(after, x) <==> has_path(s, x) || same_parts(t, x) by {
            if has_path(after, x) {
                let p = choose|p: int| 0 <= p < after.len() && same_parts(#[trigger] after[p], x);
                if p < k {
                    assert(same_parts(s[p], x));
                } else if p > k {
                    assert(same_parts(s[p - 1], x));
                }
            }
            if has_path(s, x) {
                let p = choose|p: int| 0 <= p < s.len() && same_parts(#[trigger] s[p], x);
                if p < k {
                    assert(same_parts(after[p], x));
                } else {
                    assert(same_parts(after[p + 1], x));
                }
            }
            if same_parts(t, x) {
                assert(same_parts(after[k], x));
            }
        }
    }
}

/// The paths in order are ordered, and are the same paths.
pub proof fn lemma_ordered_paths(s: Seq<Seq<char>>)
    ensures
        paths_ordered(ordered_paths(s)),
        forall|x: Seq<char>| #[trigger] has_path(ordered_paths(s), x) <==> has_path(s, x),
    decreases s.len(),
{
    if s.len() > 0 {
        lemma_ordered_paths(s.drop_last());
        lemma_put_path(ordered_paths(s.drop_last()), s.last());
        assert forall|x: Seq<char>| #[trigger] has_path(ordered_paths(s), x) <==> has_path(s, x) by {
            assert(has_path(ordered_paths(s), x) <==> has_path(ordered_paths(s.drop_last()), x) || same_parts(s.last(), x));
            if has_path(s, x) {
                let p = choose|p: int| 0 <= p < s.len() && same_parts(#[trigger] s[p], x);
                if p < s.len() - 1 {
                    assert(same_parts(s.drop_last()[p], x));
                }
            }
            if has_path(s.drop_last(), x) {
                let p = choose|p: int| 0 <= p < s.drop_last().len() && same_parts(#[trigger] s.drop_last()[p], x);
                assert(same_parts(s[p], x));
            }
            if same_parts(s.last(), x) {
                assert(same_parts(s[s.len() - 1], x));
            }
        }
    }
}

// ------------------------------------------------------- texts and their parts

pub proof fn lemma_split_concat(a: Seq<char>, c: char, b: Seq<char>)
    ensures
        split_on(a + seq![c] + b, c) == split_on(a, c) + split_on(b, c),
    decreases b.len(),
{
    let whole = a + seq![c] + b;
    lemma_split_nonempty(b, c);
    if b.len() == 0 {
        assert(whole.drop_last() =~= a);
        assert(split_on(whole, c) =~= split_on(a, c) + split_on(b, c));
    } else {
        assert(whole.drop_last() =~= a + seq![c] + b.drop_last());
        lemma_split_concat(a, c, b.drop_last());
        lemma_split_nonempty(b.drop_last(), c);
        assert(whole.last() == b.last());
        assert(split_on(whole, c) =~= split_on(a, c) + split_on(b, c));
    }
}

pub proof fn lemma_split_none(s: Seq<char>, c: char)
    requires
        !s.contains(c),
    ensures
        split_on(s, c) == seq![s],
    decreases s.len(),
{
    if s.len() == 0 {
        assert(s =~= Seq::empty());
    } else {
        assert(s[s.len() - 1] != c);
        assert forall|i: int| 0 <= i < s.drop_last().len() implies s.drop_last()[i] != c by {
            assert(s[i] != c);
        }
        lemma_split_none(s.drop_last(), c);
        assert(s.drop_last().push(s.last()) =~= s);
        assert(split_on(s, c) =~= seq![s]);
    }
}

pub proof fn lemma_pieces_free(s: Seq<char>, c: char)
    ensures
        forall|i: int| 0 <= i < split_on(s, c).len() ==> !(#[trigger] split_on(s, c)[i]).contains(c),
    decreases s.len(),
{
    lemma_split_nonempty(s, c);
    if s.len() > 0 {
        let before = split_on(s.drop_last(), c);
        lemma_split_nonempty(s.drop_last(), c);
        lemma_pieces_free(s.drop_last(), c);
        assert forall|i: int| 0 <= i < split_on(s, c).len() implies !(#[trigger] split_on(s, c)[i]).contains(c) by {
            if s.last() == c {
                if i < before.len() {
                    assert(split_on(s, c)[i] == before[i]);
                }
            } else if i == before.len() - 1 {
                let piece = before[i].push(s.last());
                assert(split_on(s, c)[i] == piece);
                assert(!before[i].contains(c));
                if piece.contains(c) {
                    let k = choose|k: int| 0 <= k < piece.len() && piece[k] == c;
                    if k < before[i].len() {
                        assert(before[i][k] == c);
                    }
                }
            } else {
                assert(split_on(s, c)[i] == before[i]);
            }
        }
    }
}

proof fn lemma_piece_parts_concat(x: Seq<Seq<char>>, y: Seq<Seq<char>>)
    ensures
        piece_parts(x + y) == piece_parts(x) + piece_parts(y),
    decreases y.len(),
{
    if y.len() == 0 {
        assert(x + y =~= x);
        assert(piece_parts(x) + piece_parts(y) =~= piece_parts(x));
    } else {
        assert((x + y).drop_last() =~= x + y.drop_last());
        lemma_piece_parts_concat(x, y.drop_last());
        assert(piece_parts(x + y) =~= piece_parts(x) + piece_parts(y));
    }
}

/// The parts of a path that is seen from a directory are those of the directory, and then those
/// between its own separators.
pub proof fn lemma_parts_of_joined(a: Seq<char>, b: Seq<char>)
    requires
        a.len() > 0,
        !has_root(b),
    ensures
        path_parts(joined(a, b)) == path_parts(a) + piece_parts(split_on(b, '/')),
{
    let whole = joined(a, b);
    lemma_split_nonempty(a, '/');
    lemma_split_nonempty(b, '/');
    if a.last() == '/' {
        let front = a.drop_last();
        assert(whole =~= front + seq!['/'] + b);
        lemma_split_concat(front, '/', b);
        lemma_split_nonempty(front, '/');
        lemma_piece_parts_concat(split_on(front, '/'), split_on(b, '/'));
        assert(split_on(a, '/') == split_on(front, '/').push(Seq::empty()));
        assert(split_on(a, '/').drop_last() =~= split_on(front, '/'));
        assert(split_on(whole, '/')[0] == split_on(a, '/')[0]);
    } else {
        lemma_split_concat(a, '/', b);
        lemma_piece_parts_concat(split_on(a, '/'), split_on(b, '/'));
        assert(split_on(whole, '/')[0] == split_on(a, '/')[0]);
    }
    assert(whole[0] == a[0]);
    assert(path_parts(whole) =~= path_parts(a) + piece_parts(split_on(b, '/')));
}

/// A name can stand between separators.
pub open spec fn is_name(t: Seq<char>) -> bool {
    t.len() > 0 && !t.contains('/') && t != seq!['.'] && t != seq!['.', '.']
}

/// The parts can be those of a path: the root and `.` stand at the front only.
pub open spec fn proper(parts: Seq<PartView>) -> bool {
    forall|i: int|
        0 <= i < parts.len() ==> match #[trigger] parts[i] {
            PartView::Prefix(_) => false,
            PartView::RootDir => i == 0,
            PartView::CurDir => i == 0,
            PartView::ParentDir => true,
            PartView::Normal(t) => is_name(t),
        }
}

proof fn lemma_piece_parts_proper(pieces: Seq<Seq<char>>)
    requires
        forall|i: int| 0 <= i < pieces.len() ==> !(#[trigger] pieces[i]).contains('/'),
    ensures
        forall|i: int|
            0 <= i < piece_parts(pieces).len() ==> match #[trigger] piece_parts(pieces)[i] {
                PartView::ParentDir => true,
                PartView::Normal(t) => is_name(t),
                _ => false,
            },
    decreases pieces.len(),
{
    if pieces.len() > 0 {
        let rest = pieces.drop_last();
        assert forall|i: int| 0 <= i < rest.len() implies !(#[trigger] rest[i]).contains('/') by {
            assert(rest[i] == pieces[i]);
        }
        lemma_piece_parts_proper(rest);
        assert(!pieces[pieces.len() - 1].contains('/'));
    }
}

/// The parts of a path are proper.
pub proof fn lemma_path_parts_proper(path: Seq<char>)
    ensures
        proper(path_parts(path)),
{
    lemma_pieces_free(path, '/');
    lemma_piece_parts_proper(split_on(path, '/'));
}

/// The root is a part of a path exactly where the path begins with it, and then the first.
pub proof fn lemma_root_part(path: Seq<char>)
    ensures
        has_root(path) <==> path_parts(path).len() > 0 && path_parts(path)[0] is RootDir,
{
    let pieces = split_on(path, '/');
    lemma_pieces_free(path, '/');
    lemma_piece_parts_proper(pieces);
    if !has_root(path) && !(pieces[0] == seq!['.']) {
        assert(path_parts(path) =~= piece_parts(pieces));
    }
}

proof fn lemma_path_text_nonempty(parts: Seq<PartView>)
    requires
        proper(parts),
        parts.len() > 0,
    ensures
        path_text(parts).len() > 0,
{
    assert(part_text(parts[parts.len() - 1]).len() > 0);
}

/// The path that proper parts make has those parts.
pub proof fn lemma_parts_of_text(parts: Seq<PartView>)
    requires
        proper(parts),
    ensures
        path_parts(path_text(parts)) == parts,
    decreases parts.len(),
{
    let text = path_text(parts);
    reveal_with_fuel(split_on, 3);
    reveal_with_fuel(piece_parts, 3);
    if parts.len() == 0 {
        assert(text =~= Seq::empty());
        assert(path_parts(text) =~= parts);
    } else {
        let rest = parts.drop_last();
        let last = parts[parts.len() - 1];
        assert(proper(rest)) by {
            assert forall|i: int| 0 <= i < rest.len() implies match #[trigger] rest[i] {
                PartView::Prefix(_) => false,
                PartView::RootDir => i == 0,
                PartView::CurDir => i == 0,
                PartView::ParentDir => true,
                PartView::Normal(t) => is_name(t),
            } by {
                assert(rest[i] == parts[i]);
            }
        }
        lemma_parts_of_text(rest);
        let t = part_text(last);
        match last {
            PartView::RootDir => {
                assert(rest =~= Seq::empty());
                assert(t.drop_last() =~= Seq::empty());
                assert(split_on(t, '/') =~= seq![Seq::empty(), Seq::empty()]);
                assert(split_on(t, '/').drop_last() =~= seq![Seq::empty()]);
                assert(split_on(t, '/').drop_last().drop_last() =~= Seq::empty());
                assert(piece_parts(split_on(t, '/')) =~= Seq::empty());
                assert(path_parts(text) =~= parts);
            },
            PartView::CurDir => {
                assert(rest =~= Seq::empty());
                assert(t.drop_last() =~= Seq::empty());
                assert(Seq::empty().push('.') =~= seq!['.']);
                assert(split_on(t, '/') =~= seq![seq!['.']]);
                assert(split_on(t, '/').drop_last() =~= Seq::empty());
                assert(piece_parts(split_on(t, '/')) =~= Seq::empty());
                assert(path_parts(text) =~= parts);
            },
            _ => {
                assert(!t.contains('/'));
                assert(t.len() > 0);
                assert(t[0] != '/') by {
                    if t[0] == '/' {
                        assert(t.contains('/'));
                    }
                }
                assert(t != seq!['.']) by {
                    assert(seq!['.', '.'].len() == 2);
                    assert(seq!['.'].len() == 1);
                }
                lemma_split_none(t, '/');
                assert(seq![t].drop_last() =~= Seq::empty());
                assert(piece_parts(seq![t]) =~= seq![last]);
                if rest.len() == 0 {
                    assert(rest =~= Seq::empty());
                    assert(path_text(rest) =~= Seq::empty());
                    assert(path_parts(text) =~= parts);
                } else {
                    lemma_path_text_nonempty(rest);
                    lemma_parts_of_joined(path_text(rest), t);
                    assert(path_parts(text) =~= rest + seq![last]);
                    assert(rest + seq![last] =~= parts);
                }
            },
        }
    }
}

/// What is seen from a directory, and is not written from the root, lies under the directory.
pub proof fn lemma_joined_lies_under(a: Seq<char>, b: Seq<char>)
    requires
        !has_root(b),
    ensures
        lies_under(joined(a, b), a),
{
    if a.len() == 0 {
        reveal_with_fuel(piece_parts, 2);
        assert(split_on(a, '/') =~= seq![Seq::empty()]);
        assert(split_on(a, '/').drop_last() =~= Seq::empty());
        assert(path_parts(a) =~= Seq::empty());
        assert(path_parts(joined(a, b)).subrange(0, 0) =~= Seq::empty());
    } else {
        lemma_parts_of_joined(a, b);
        let more = piece_parts(split_on(b, '/'));
        assert((path_parts(a) + more).subrange(0, path_parts(a).len() as int) =~= path_parts(a));
    }
}

/// To lie under a directory goes on.
pub proof fn lemma_lies_under_goes_on(a: Seq<char>, b: Seq<char>, c: Seq<char>)
    requires
        lies_under(a, b),
        lies_under(b, c),
    ensures
        lies_under(a, c),
{
    let x = path_parts(a);
    let y = path_parts(b);
    let z = path_parts(c);
    assert(x.subrange(0, z.len() as int) =~= y.subrange(0, z.len() as int)) by {
        assert(y =~= x.subrange(0, y.len() as int));
    }
}

/// What is written from the root is seen the same from everywhere; anything else comes behind the directory, with one separator
/// between them.
pub proof fn law_joined(a: Seq<char>, b: Seq<char>)
    requires
        a.len() > 0,
    ensures
        has_root(b) ==> joined(a, b) == b,
        !has_root(b) && a.last() != '/' ==> joined(a, b) == a + seq!['/'] + b,
        !has_root(b) && a.last() == '/' ==> joined(a, b) == a + b,
        joined(Seq::empty(), b) == b,
{
}

/// A path without its last part is the path of the others; there is nothing above the root, and nothing above a path of no part.
pub proof fn law_parent(path: Seq<char>)
    requires
        is_plain(path),
    ensures
        path_parts(path).len() > 0 && !(path_parts(path).last() is RootDir) ==> parent_of(path) is Some && path_parts(
            parent_of(path)->0,
        ) == path_parts(path).drop_last(),
        path_parts(path).len() == 0 || path_parts(path).last() is RootDir ==> parent_of(path) is None,
        path_parts(path).len() > 0 && path_parts(path).last() is Normal ==> last_name(path) == Some(
            path_parts(path).last()->Normal_0,
        ),
{
    let parts = path_parts(path);
    lemma_path_parts_proper(path);
    if parts.len() > 0 && !(parts.last() is RootDir) {
        let less = parts.drop_last();
        assert(proper(less)) by {
            assert forall|i: int| 0 <= i < less.len() implies #[trigger] less[i] == parts[i] by {}
        }
        lemma_parts_of_text(less);
    }
}

} // verus!
