//! Sets of names that remember the order in which the names came in.

use crate::text::texts;
use vstd::hash_map::StringHashMap;
use vstd::prelude::*;

verus! {

/// `names` with `name` at the end, unless it is there already.
pub open spec fn with_name(names: Seq<Seq<char>>, name: Seq<char>) -> Seq<Seq<char>> {
    if names.contains(name) {
        names
    } else {
        names.push(name)
    }
}

/// A set of names: each is held once, in the order of first insertion.
pub struct NameSet {
    names: Vec<String>,
    index: StringHashMap<usize>,
}

impl View for NameSet {
    type V = Seq<Seq<char>>;

    closed spec fn view(&self) -> Seq<Seq<char>> {
        texts(self.names@)
    }
}

impl NameSet {
    #[verifier::type_invariant]
    spec fn well_formed(self) -> bool {
        let all = texts(self.names@);
        &&& all.no_duplicates()
        &&& forall|i: int|
            0 <= i < all.len() ==> #[trigger] self.index@.contains_key(all[i]) && self.index@[all[i]] == i
        &&& forall|t: Seq<char>| #[trigger]
            self.index@.contains_key(t) ==> self.index@[t] < all.len() && all[self.index@[t] as int] == t
    }

    /// The empty set.
    pub fn new() -> (res: NameSet)
        ensures
            res@ == Seq::<Seq<char>>::empty(),
    {
        let res = NameSet { names: Vec::new(), index: StringHashMap::new() };
        assert(res@ =~= Seq::<Seq<char>>::empty());
        res
    }

    /// The number of names. No name is held twice.
    pub fn len(&self) -> (res: usize)
        ensures
            res == self@.len(),
            self@.no_duplicates(),
    {
        proof {
            use_type_invariant(self);
        }
        self.names.len()
    }

    /// Whether there is no name.
    pub fn is_empty(&self) -> (res: bool)
        ensures
            res == (self@.len() == 0),
    {
        self.names.len() == 0
    }

    /// Whether `name` is in the set.
    pub fn contains(&self, name: &str) -> (res: bool)
        ensures
            res == self@.contains(name@),
    {
        self.find(name).is_some()
    }

    /// The position of `name`, if it is in the set.
    pub fn find(&self, name: &str) -> (res: Option<usize>)
        ensures
            match res {
                Some(i) => i < self@.len() && self@[i as int] == name@,
                None => !self@.contains(name@),
            },
    {
        proof {
            use_type_invariant(self);
        }
        match self.index.get(name) {
            Some(i) => Some(*i),
            None => None,
        }
    }

    /// The name at position `i`.
    pub fn name(&self, i: usize) -> (res: &String)
        requires
            i < self@.len(),
        ensures
            res@ == self@[i as int],
    {
        &self.names[i]
    }

    /// The names, in order of insertion.
    pub fn to_vec(&self) -> (res: Vec<String>)
        ensures
            texts(res@) == self@,
    {
        crate::text::clone_texts(&self.names)
    }

    /// The set with `name` in it, and the position of `name`.
    pub fn insert(self, name: &str) -> (res: (NameSet, usize))
        ensures
            res.0@ == with_name(self@, name@),
            res.0@.no_duplicates(),
            res.1 < res.0@.len(),
            res.0@[res.1 as int] == name@,
    {
        proof {
            use_type_invariant(&self);
        }
        match self.find(name) {
            Some(i) => (self, i),
            None => {
                let ghost before = texts(self.names@);
                let NameSet { mut names, mut index } = self;
                let i: usize = names.len();
                names.push(name.to_owned());
                index.insert(name.to_owned(), i);
                proof {
                    assert(texts(names@) =~= before.push(name@));
                    assert(names@[i as int]@ == name@);
                }
                (NameSet { names, index }, i)
            },
        }
    }
}

} // verus!
