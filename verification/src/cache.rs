//! Keeps parsed configurations, so that no file is parsed twice.

use crate::parser::{parse_terragrunt_file, TerragruntConfig};
#[allow(unused_imports)]
use crate::parser::{config_of, ConfigView};
use crate::processor::ProcessError;
#[allow(unused_imports)]
use crate::source::parsed_body;
use vstd::prelude::*;

verus! {

/// The map of `dashmap`.
#[verifier::external_type_specification]
#[verifier::external_body]
#[verifier::reject_recursive_types(K)]
#[verifier::reject_recursive_types(V)]
#[verifier::reject_recursive_types(S)]
pub struct ExDashMap<K, V, S>(dashmap::DashMap<K, V, S>);

/// What a map holds.
pub uninterp spec fn held(m: dashmap::DashMap<String, usize>) -> Map<Seq<char>, usize>;

/// Calls `dashmap::DashMap::new`: a map that holds nothing.
#[verifier::external_body]
fn new_map() -> (res: dashmap::DashMap<String, usize>)
    ensures
        forall|k: Seq<char>| !(#[trigger] held(res).contains_key(k)),
{
    dashmap::DashMap::new()
}

/// Calls `dashmap::DashMap::get`: what the map holds for the key, if anything.
#[verifier::external_body]
fn get_from_map(m: &dashmap::DashMap<String, usize>, key: &str) -> (res: Option<usize>)
    ensures
        match res {
            Some(i) => held(*m).contains_key(key@) && held(*m)[key@] == i,
            None => !held(*m).contains_key(key@),
        },
{
    match m.get(key) {
        Some(i) => Some(*i),
        None => None,
    }
}

/// Calls `dashmap::DashMap::insert`: the map holds the value for the key from then on, and what it
/// held for other keys.
#[verifier::external_body]
fn put_in_map(m: &mut dashmap::DashMap<String, usize>, key: String, value: usize)
    ensures
        held(*final(m)) == held(*old(m)).insert(key@, value),
{
    m.insert(key, value);
}

/// Cache for parsed terragrunt configs, by the paths that they lead to.
pub struct ParseCache {
    index: dashmap::DashMap<String, usize>,
    parsed: Vec<(String, TerragruntConfig)>,
}

/// The paths and configurations of a list.
spec fn parsed_views(parsed: Seq<(String, TerragruntConfig)>) -> Seq<(Seq<char>, ConfigView)> {
    parsed.map_values(|p: (String, TerragruntConfig)| (p.0@, p.1@))
}

/// The configuration at a path, where there is one.
pub open spec fn config_at(parsed: Seq<(Seq<char>, ConfigView)>, key: Seq<char>) -> Option<ConfigView>
    decreases parsed.len(),
{
    if parsed.len() == 0 {
        None
    } else if parsed.last().0 == key {
        Some(parsed.last().1)
    } else {
        config_at(parsed.drop_last(), key)
    }
}

/// The number of dependencies in the configurations.
pub open spec fn total_deps(parsed: Seq<(Seq<char>, ConfigView)>) -> nat
    decreases parsed.len(),
{
    if parsed.len() == 0 {
        0
    } else {
        total_deps(parsed.drop_last()) + parsed.last().1.deps.len()
    }
}

proof fn lemma_config_at(parsed: Seq<(Seq<char>, ConfigView)>, key: Seq<char>, i: int)
    requires
        0 <= i < parsed.len(),
        parsed[i].0 == key,
        forall|j: int| 0 <= j < parsed.len() && j != i ==> (#[trigger] parsed[j]).0 != key,
    ensures
        config_at(parsed, key) == Some(parsed[i].1),
    decreases parsed.len(),
{
    if i < parsed.len() - 1 {
        assert(parsed[parsed.len() - 1].0 != key);
        let rest = parsed.drop_last();
        assert forall|j: int| 0 <= j < rest.len() && j != i implies (#[trigger] rest[j]).0 != key by {
            assert(rest[j] == parsed[j]);
        }
        lemma_config_at(rest, key, i);
    }
}

proof fn lemma_config_not_at(parsed: Seq<(Seq<char>, ConfigView)>, key: Seq<char>)
    requires
        forall|j: int| 0 <= j < parsed.len() ==> (#[trigger] parsed[j]).0 != key,
    ensures
        config_at(parsed, key) is None,
    decreases parsed.len(),
{
    if parsed.len() > 0 {
        assert(parsed[parsed.len() - 1].0 != key);
        let rest = parsed.drop_last();
        assert forall|j: int| 0 <= j < rest.len() implies (#[trigger] rest[j]).0 != key by {
            assert(rest[j] == parsed[j]);
        }
        lemma_config_not_at(rest, key);
    }
}

impl ParseCache {
    /// The configurations that were parsed, in order, with their paths.
    pub closed spec fn parsed(&self) -> Seq<(Seq<char>, ConfigView)> {
        parsed_views(self.parsed@)
    }

    /// Each configuration is held once, and is found by its path.
    pub closed spec fn well_formed(&self) -> bool {
        let all = self.parsed();
        let index = held(self.index);
        &&& forall|i: int|
            #![trigger all[i]]
            0 <= i < all.len() ==> index.contains_key(all[i].0) && index[all[i].0] == i
        &&& forall|k: Seq<char>| #[trigger]
            index.contains_key(k) ==> index[k] < all.len() && all[index[k] as int].0 == k
    }

    /// An empty cache.
    pub fn new() -> (res: ParseCache)
        ensures
            res.well_formed(),
            res.parsed() == Seq::<(Seq<char>, ConfigView)>::empty(),
    {
        let res = ParseCache { index: new_map(), parsed: Vec::new() };
        assert(res.parsed() =~= Seq::empty());
        res
    }

    /// The configuration at a path, if it was parsed.
    pub fn get(&self, key: &str) -> (res: Option<TerragruntConfig>)
        requires
            self.well_formed(),
        ensures
            match res {
                Some(config) => config_at(self.parsed(), key@) == Some(config@),
                None => config_at(self.parsed(), key@) is None,
            },
    {
        let ghost all = self.parsed();
        let ghost index = held(self.index);
        match get_from_map(&self.index, key) {
            Some(i) => {
                proof {
                    assert(index.contains_key(key@));
                    assert(all[i as int] == (self.parsed@[i as int].0@, self.parsed@[i as int].1@));
                    assert forall|j: int| 0 <= j < all.len() && j != i implies (#[trigger] all[j]).0 != key@ by {
                        assert(index[all[j].0] == j);
                    }
                    lemma_config_at(all, key@, i as int);
                }
                Some(self.parsed[i].1.clone())
            },
            None => {
                proof {
                    assert forall|j: int| 0 <= j < all.len() implies (#[trigger] all[j]).0 != key@ by {
                        assert(index.contains_key(all[j].0));
                    }
                    lemma_config_not_at(all, key@);
                }
                None
            },
        }
    }

    /// The configuration at the path `key`: from the cache where it is there, and else parsed from
    /// `content` and kept.
    pub fn get_or_parse(&mut self, key: &str, content: &str) -> (res: Result<TerragruntConfig, ProcessError>)
        requires
            old(self).well_formed(),
        ensures
            final(self).well_formed(),
            match config_at(old(self).parsed(), key@) {
                Some(c) => final(self).parsed() == old(self).parsed() && res is Ok && res->Ok_0@ == c,
                None => match parsed_body(content@) {
                    Ok(file) => final(self).parsed() == old(self).parsed().push((key@, config_of(file))) && res is Ok
                        && res->Ok_0@ == config_of(file),
                    Err(m) => final(self).parsed() == old(self).parsed() && res is Err && res->Err_0 is ParseError
                        && res->Err_0->ParseError_0@ == "Failed to parse HCL: "@ + m,
                },
            },
    {
        match self.get(key) {
            Some(config) => {
                return Ok(config);
            },
            None => {},
        }
        match parse_terragrunt_file(content) {
            Err(e) => Err(ProcessError::ParseError(e.to_text())),
            Ok(config) => {
                let ghost all = self.parsed();
                let ghost index = held(self.index);
                let i: usize = self.parsed.len();
                proof {
                    assert(all.len() == i);
                    if index.contains_key(key@) {
                        assert forall|j: int| 0 <= j < all.len() && j != index[key@] implies (#[trigger] all[j]).0 != key@ by {
                            assert(index[all[j].0] == j);
                        }
                        lemma_config_at(all, key@, index[key@] as int);
                    }
                }
                let copy = config.clone();
                let ghost cv = copy@;
                self.parsed.push((key.to_owned(), copy));
                put_in_map(&mut self.index, key.to_owned(), i);
                proof {
                    let now = self.parsed();
                    assert(now =~= all.push((key@, cv)));
                    let after = held(self.index);
                    assert forall|j: int|
                        #![trigger now[j]]
                        0 <= j < now.len() implies after.contains_key(now[j].0) && after[now[j].0] == j by {
                        if j < i {
                            assert(now[j] == all[j]);
                            assert(index.contains_key(all[j].0));
                        }
                    }
                    assert forall|k: Seq<char>| #[trigger] after.contains_key(k) implies after[k] < now.len()
                        && now[after[k] as int].0 == k by {
                        if k != key@ {
                            assert(index.contains_key(k));
                        }
                    }
                }
                Ok(config)
            },
        }
    }

    /// Cache statistics: the number of files, and the number of dependencies in them, as far as a
    /// machine word can count.
    pub fn stats(&self) -> (res: (usize, usize))
        ensures
            res.0 == self.parsed().len(),
            res.1 == (if total_deps(self.parsed()) <= usize::MAX {
                total_deps(self.parsed()) as int
            } else {
                usize::MAX as int
            }),
    {
        let ghost all = self.parsed();
        let mut total: usize = 0;
        let mut i: usize = 0;
        assert(all.take(0) =~= Seq::empty());
        while i < self.parsed.len()
            invariant
                i <= self.parsed@.len(),
                all == self.parsed(),
                total == (if total_deps(all.take(i as int)) <= usize::MAX {
                    total_deps(all.take(i as int)) as int
                } else {
                    usize::MAX as int
                }),
            decreases self.parsed@.len() - i,
        {
            proof {
                assert(all.take(i + 1).drop_last() =~= all.take(i as int));
                assert(all.take(i + 1).last() == (self.parsed@[i as int].0@, self.parsed@[i as int].1@));
            }
            total = total.saturating_add(self.parsed[i].1.deps.len());
            i += 1;
        }
        assert(all.take(i as int) =~= all);
        (self.parsed.len(), total)
    }
}

impl Default for ParseCache {
    fn default() -> (res: Self)
        ensures
            res.well_formed(),
            res.parsed() == Seq::<(Seq<char>, ConfigView)>::empty(),
    {
        ParseCache::new()
    }
}

// ------------------------------------------------------------------------- laws

/// What is parsed once is had from the cache from then on, whatever has become of the file.
pub proof fn law_parsed_once(parsed: Seq<(Seq<char>, ConfigView)>, key: Seq<char>, config: ConfigView, other: Seq<char>)
    ensures
        config_at(parsed.push((key, config)), key) == Some(config),
        other != key ==> config_at(parsed.push((key, config)), other) == config_at(parsed, other),
{
    assert(parsed.push((key, config)).drop_last() =~= parsed);
}

} // verus!
