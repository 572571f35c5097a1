//! A declared dependency: a package name and the version constraint asked of it.

use vstd::prelude::*;

verus! {

/// What identifies a dependency in specifications: the characters of its name
/// and the characters of its version constraint.
pub type DependencyKey = (Seq<char>, Seq<char>);

/// A dependency as a manifest declares it. `version` is the constraint as
/// written, not a version that was chosen for it.
#[derive(Debug, PartialEq, Eq, Hash)]
pub struct Dependency {
    pub name: String,
    pub version: String,
}

impl View for Dependency {
    type V = DependencyKey;

    open spec fn view(&self) -> DependencyKey {
        (self.name@, self.version@)
    }
}

impl Clone for Dependency {
    fn clone(&self) -> (copy: Self)
        ensures
            copy@ == self@,
    {
        Dependency { name: self.name.clone(), version: self.version.clone() }
    }
}

/// The keys of a list of dependencies, in the order of the list.
pub open spec fn keys_of(list: Seq<Dependency>) -> Seq<DependencyKey> {
    Seq::new(list.len(), |i: int| list[i]@)
}

impl Dependency {
    /// A dependency on `name` under the constraint `version`.
    pub fn new(name: &str, version: &str) -> (dependency: Self)
        ensures
            dependency@ == (name@, version@),
    {
        Dependency { name: name.to_owned(), version: version.to_owned() }
    }

    /// Whether two dependencies have the same name and the same constraint
    /// text. Two constraints that admit the same versions but are written
    /// differently are not the same.
    pub fn same_as(&self, other: &Dependency) -> (same: bool)
        ensures
            same == (self@ == other@),
    {
        self.name == other.name && self.version == other.version
    }
}

/// A copy of a list of dependencies.
pub fn clone_dependencies(list: &Vec<Dependency>) -> (copy: Vec<Dependency>)
    ensures
        keys_of(copy@) == keys_of(list@),
{
    let mut copy: Vec<Dependency> = Vec::new();
    let mut i: usize = 0;
    while i < list.len()
        invariant
            i <= list.len(),
            copy.len() == i,
            forall|j: int| 0 <= j < i ==> copy[j]@ == list[j]@,
        decreases list.len() - i,
    {
        copy.push(list[i].clone());
        i += 1;
    }
    assert(keys_of(copy@) =~= keys_of(list@));
    copy
}

} // verus!
