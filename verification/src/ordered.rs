//! The dependencies in the order in which they are to be installed, each
//! once.
//!
//! The order is kept in an `indexmap::IndexMap` without values: it keeps its
//! keys in the order in which they came, and takes no key twice.

use vstd::prelude::*;
use indexmap::IndexMap;
use crate::dependency::keys_of;
use crate::dependency::Dependency;
use crate::dependency::DependencyKey;

verus! {

#[verifier::external_type_specification]
#[verifier::external_body]
#[verifier::reject_recursive_types(K)]
#[verifier::reject_recursive_types(V)]
#[verifier::reject_recursive_types(S)]
pub struct ExIndexMap<K, V, S>(IndexMap<K, V, S>);

/// The keys of an `IndexMap`, in its order, each by its characters.
pub uninterp spec fn ordered_keys(map: IndexMap<(String, String), ()>) -> Seq<DependencyKey>;

/// `IndexMap::new`: a map without keys.
#[verifier::external_body]
fn empty_order() -> (map: IndexMap<(String, String), ()>)
    ensures
        ordered_keys(map) == Seq::<DependencyKey>::empty(),
{
    IndexMap::new()
}

/// `IndexMap::contains_key`: whether the map has the key.
#[verifier::external_body]
fn order_contains(map: &IndexMap<(String, String), ()>, name: &String, version: &String) -> (found:
    bool)
    ensures
        found == ordered_keys(*map).contains((name@, version@)),
{
    map.contains_key(&(name.clone(), version.clone()))
}

/// `IndexMap::insert`: a key that the map has stays in its place; another
/// comes last. The result says whether the map had the key.
#[verifier::external_body]
fn order_insert(map: &mut IndexMap<(String, String), ()>, name: String, version: String) -> (had:
    bool)
    ensures
        had == ordered_keys(*old(map)).contains((name@, version@)),
        had ==> ordered_keys(*final(map)) == ordered_keys(*old(map)),
        !had ==> ordered_keys(*final(map)) == ordered_keys(*old(map)).push((name@, version@)),
{
    map.insert((name, version), ()).is_some()
}

/// `IndexMap::into_keys`: the keys in the order of the map, each as a
/// dependency.
#[verifier::external_body]
fn order_into_list(map: IndexMap<(String, String), ()>) -> (list: Vec<Dependency>)
    ensures
        keys_of(list@) == ordered_keys(map),
{
    map.into_keys().map(|key| Dependency { name: key.0, version: key.1 }).collect()
}

/// Dependencies in an order, each once.
pub struct InstallOrder {
    keys: IndexMap<(String, String), ()>,
}

impl InstallOrder {
    /// The dependencies in their order.
    pub closed spec fn view(&self) -> Seq<DependencyKey> {
        ordered_keys(self.keys)
    }

    /// An order without dependencies.
    pub fn new() -> (order: Self)
        ensures
            order@ == Seq::<DependencyKey>::empty(),
    {
        InstallOrder { keys: empty_order() }
    }

    /// Whether the order holds a dependency.
    pub fn contains(&self, dependency: &Dependency) -> (found: bool)
        ensures
            found == self@.contains(dependency@),
    {
        order_contains(&self.keys, &dependency.name, &dependency.version)
    }

    /// Puts a dependency last in the order, unless the order holds it.
    pub fn insert(&mut self, dependency: Dependency)
        ensures
            final(self)@ == if old(self)@.contains(dependency@) {
                old(self)@
            } else {
                old(self)@.push(dependency@)
            },
    {
        let _ = order_insert(&mut self.keys, dependency.name, dependency.version);
    }

    /// The dependencies in their order.
    pub fn into_list(self) -> (list: Vec<Dependency>)
        ensures
            keys_of(list@) == self@,
    {
        order_into_list(self.keys)
    }
}

} // verus!
