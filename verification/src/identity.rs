//! The identities of one resolution: each dependency that was met gets the
//! next integer, and keeps it.
//!
//! The pairs live in a `bidir_map::BidirMap`, which is searched from both
//! sides: by dependency, to see whether it was met before, and by identity, to
//! find the dependency again.

use vstd::prelude::*;
use bidir_map::BidirMap;
use crate::dependency::Dependency;
use crate::dependency::DependencyKey;

verus! {

#[verifier::external_type_specification]
#[verifier::external_body]
#[verifier::reject_recursive_types(Kv1)]
#[verifier::reject_recursive_types(Kv2)]
pub struct ExBidirMap<Kv1: PartialEq, Kv2: PartialEq>(BidirMap<Kv1, Kv2>);

/// The pairs that a `BidirMap` holds, in the order in which it keeps them, each
/// key by its characters.
pub uninterp spec fn pairs_of(map: BidirMap<(String, String), u64>) -> Seq<(DependencyKey, u64)>;

/// Whether some pair has this key.
pub open spec fn has_key(pairs: Seq<(DependencyKey, u64)>, key: DependencyKey) -> bool {
    exists|i: int| 0 <= i < pairs.len() && (#[trigger] pairs[i]).0 == key
}

/// Whether some pair has this identity.
pub open spec fn has_id(pairs: Seq<(DependencyKey, u64)>, id: u64) -> bool {
    exists|i: int| 0 <= i < pairs.len() && (#[trigger] pairs[i]).1 == id
}

/// Whether `at` is the place of the first pair with this key.
pub open spec fn is_first_with_key(
    pairs: Seq<(DependencyKey, u64)>,
    key: DependencyKey,
    at: int,
) -> bool {
    &&& 0 <= at < pairs.len()
    &&& pairs[at].0 == key
    &&& forall|j: int| 0 <= j < at ==> (#[trigger] pairs[j]).0 != key
}

/// Whether `at` is the place of the first pair with this identity.
pub open spec fn is_first_with_id(pairs: Seq<(DependencyKey, u64)>, id: u64, at: int) -> bool {
    &&& 0 <= at < pairs.len()
    &&& pairs[at].1 == id
    &&& forall|j: int| 0 <= j < at ==> (#[trigger] pairs[j]).1 != id
}

/// A sequence without the item at `at`, whose place the last item takes.
pub open spec fn swap_removed(
    pairs: Seq<(DependencyKey, u64)>,
    at: int,
) -> Seq<(DependencyKey, u64)> {
    pairs.update(at, pairs.last()).drop_last()
}

/// What a map holds after `(key, id)` was inserted: the first pair with that
/// key leaves, or else the first with that identity, and the new pair comes
/// last.
pub open spec fn pairs_after_insert(
    before: Seq<(DependencyKey, u64)>,
    key: DependencyKey,
    id: u64,
    after: Seq<(DependencyKey, u64)>,
) -> bool {
    &&& forall|at: int| is_first_with_key(before, key, at) ==> after == swap_removed(before, at).push((key, id))
    &&& !has_key(before, key) ==> forall|at: int| is_first_with_id(before, id, at) ==> after == swap_removed(before, at).push((key, id))
    &&& !has_key(before, key) && !has_id(before, id) ==> after == before.push((key, id))
}

/// `BidirMap::new`: the new map holds no pair.
#[verifier::external_body]
fn empty_map() -> (map: BidirMap<(String, String), u64>)
    ensures
        pairs_of(map) == Seq::<(DependencyKey, u64)>::empty(),
{
    BidirMap::new()
}

/// `BidirMap::len`: the number of pairs.
#[verifier::external_body]
fn count_pairs(map: &BidirMap<(String, String), u64>) -> (count: usize)
    ensures
        count == pairs_of(*map).len(),
{
    map.len()
}

/// `BidirMap::insert`: a pair that has the key already is taken out by
/// `swap_remove`, else one that has the identity, and the new pair is pushed.
/// What was taken out is dropped.
#[verifier::external_body]
fn insert_pair(map: &mut BidirMap<(String, String), u64>, name: String, version: String, id: u64)
    ensures
        pairs_after_insert(pairs_of(*old(map)), (name@, version@), id, pairs_of(*final(map))),
{
    map.insert((name, version), id);
}

/// `BidirMap::get_by_first`: the identity in the first pair with this key.
#[verifier::external_body]
fn id_by_key(map: &BidirMap<(String, String), u64>, name: &String, version: &String) -> (found:
    Option<u64>)
    ensures
        match found {
            Some(id) => exists|at: int|
                is_first_with_key(pairs_of(*map), (name@, version@), at) && pairs_of(*map)[at].1
                    == id,
            None => !has_key(pairs_of(*map), (name@, version@)),
        },
{
    map.get_by_first(&(name.clone(), version.clone())).copied()
}

/// `BidirMap::get_by_second`: the key in the first pair with this identity.
#[verifier::external_body]
fn key_by_id(map: &BidirMap<(String, String), u64>, id: u64) -> (found: Option<Dependency>)
    ensures
        match found {
            Some(dependency) => exists|at: int|
                is_first_with_id(pairs_of(*map), id, at) && pairs_of(*map)[at].0 == dependency@,
            None => !has_id(pairs_of(*map), id),
        },
{
    map.get_by_second(&id).map(|key| Dependency { name: key.0.clone(), version: key.1.clone() })
}

/// The dependencies met so far, each under its identity.
pub struct IdentityMap {
    pairs: BidirMap<(String, String), u64>,
}

impl IdentityMap {
    /// The dependencies in the order of their identities: the one at place `i`
    /// has the identity `i`.
    pub closed spec fn view(&self) -> Seq<DependencyKey> {
        Seq::new(pairs_of(self.pairs).len(), |i: int| pairs_of(self.pairs)[i].0)
    }

    /// The identities are the places in the map, and no dependency has two.
    pub closed spec fn wf(&self) -> bool {
        let pairs = pairs_of(self.pairs);
        &&& pairs.len() <= u64::MAX
        &&& forall|i: int| 0 <= i < pairs.len() ==> (#[trigger] pairs[i]).1 == i
        &&& forall|i: int, j: int|
            0 <= i < j < pairs.len() ==> (#[trigger] pairs[i]).0 != (#[trigger] pairs[j]).0
    }

    /// In a well-formed map no dependency occurs twice, and the identities fit
    /// their type.
    pub proof fn lemma_distinct(&self)
        requires
            self.wf(),
        ensures
            self@.no_duplicates(),
            self@.len() <= u64::MAX,
    {
    }

    /// A map without identities.
    pub fn new() -> (map: Self)
        ensures
            map.wf(),
            map@ == Seq::<DependencyKey>::empty(),
    {
        let map = IdentityMap { pairs: empty_map() };
        assert(map@ =~= Seq::<DependencyKey>::empty());
        map
    }

    /// How many identities were given out.
    pub fn len(&self) -> (count: usize)
        requires
            self.wf(),
        ensures
            count == self@.len(),
    {
        count_pairs(&self.pairs)
    }

    /// The identity of a dependency, if it has one.
    pub fn lookup(&self, dependency: &Dependency) -> (found: Option<u64>)
        requires
            self.wf(),
        ensures
            match found {
                Some(id) => 0 <= id < self@.len() && self@[id as int] == dependency@,
                None => !self@.contains(dependency@),
            },
    {
        let found = id_by_key(&self.pairs, &dependency.name, &dependency.version);
        proof {
            let pairs = pairs_of(self.pairs);
            if found is None {
                if self@.contains(dependency@) {
                    let i = choose|i: int| 0 <= i < self@.len() && self@[i] == dependency@;
                    assert(pairs[i].0 == dependency@);
                }
            }
        }
        found
    }

    /// Gives the next identity to a dependency that has none yet.
    pub fn assign(&mut self, dependency: Dependency) -> (id: u64)
        requires
            old(self).wf(),
            !old(self)@.contains(dependency@),
        ensures
            final(self).wf(),
            final(self)@ == old(self)@.push(dependency@),
            id == old(self)@.len(),
    {
        let count = count_pairs(&self.pairs);
        let id = count as u64;
        let ghost before = pairs_of(self.pairs);
        let ghost key = dependency@;
        proof {
            if has_key(before, key) {
                let i = choose|i: int| 0 <= i < before.len() && (#[trigger] before[i]).0 == key;
                assert(self@[i] == key);
            }
            if has_id(before, id) {
                let i = choose|i: int| 0 <= i < before.len() && (#[trigger] before[i]).1 == id;
                assert(before[i].1 == i);
            }
        }
        insert_pair(&mut self.pairs, dependency.name, dependency.version, id);
        // The map holds one pair more, and their number is a `usize`.
        let _ = count_pairs(&self.pairs);
        proof {
            let after = pairs_of(self.pairs);
            assert(after == before.push((key, id)));
            assert(self@ =~= old(self)@.push(key));
            assert forall|i: int, j: int| 0 <= i < j < after.len() implies (#[trigger] after[i]).0
                != (#[trigger] after[j]).0 by {
                if j == before.len() {
                    assert(old(self)@[i] == before[i].0);
                }
            }
        }
        id
    }

    /// The dependency that has this identity.
    pub fn dependency(&self, id: u64) -> (dependency: Dependency)
        requires
            self.wf(),
            0 <= id < self@.len(),
        ensures
            dependency@ == self@[id as int],
    {
        let found = key_by_id(&self.pairs, id);
        proof {
            let pairs = pairs_of(self.pairs);
            assert(pairs[id as int].1 == id);
        }
        found.unwrap()
    }
}

} // verus!
