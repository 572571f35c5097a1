//! Choosing a published version for a dependency.

use vstd::prelude::*;
use crate::dependency::Dependency;
use crate::dependency::DependencyKey;
use crate::error::Failure;
use crate::error::ResolveError;
use crate::semver::admits;
use crate::semver::is_constraint;
use crate::semver::is_valid_constraint;
use crate::semver::is_valid_version;
use crate::semver::is_version;
use crate::semver::range_test;

verus! {

/// The texts of a list of strings.
pub open spec fn texts_of(list: Seq<String>) -> Seq<Seq<char>> {
    Seq::new(list.len(), |i: int| list[i]@)
}

/// The search among the first `upto` versions, from the last of them back to
/// the first: the place of the first version that the constraint admits. A
/// text that is no version, met before such a version is found, ends the
/// search.
pub open spec fn search_back(
    dependency: DependencyKey,
    versions: Seq<Seq<char>>,
    upto: int,
) -> Result<int, Failure>
    decreases upto,
{
    if upto <= 0 {
        Err(Failure::NoMatchingVersion { dependency })
    } else if !is_version(versions[upto - 1]) {
        Err(Failure::VersionParse { version: versions[upto - 1] })
    } else if admits(dependency.1, versions[upto - 1]) {
        Ok(upto - 1)
    } else {
        search_back(dependency, versions, upto - 1)
    }
}

/// The place of the version that is chosen for a dependency among the
/// versions that a registry lists, in the order in which it lists them: the
/// last one that the constraint admits.
pub open spec fn chosen_version(
    dependency: DependencyKey,
    versions: Seq<Seq<char>>,
) -> Result<int, Failure> {
    if !is_constraint(dependency.1) {
        Err(Failure::ConstraintParse { dependency })
    } else {
        search_back(dependency, versions, versions.len() as int)
    }
}

/// A version that is chosen is one of those listed, it is a version that the
/// constraint admits, and every version listed after it is a version that
/// the constraint does not admit.
pub proof fn lemma_chosen_is_last_admitted(
    dependency: DependencyKey,
    versions: Seq<Seq<char>>,
    upto: int,
)
    requires
        0 <= upto <= versions.len(),
    ensures
        match search_back(dependency, versions, upto) {
            Ok(at) => {
                &&& 0 <= at < upto
                &&& is_version(versions[at])
                &&& admits(dependency.1, versions[at])
                &&& forall|later: int|
                    at < later < upto ==> is_version(#[trigger] versions[later]) && !admits(
                        dependency.1,
                        versions[later],
                    )
            },
            Err(failure) => {
                ||| failure == Failure::NoMatchingVersion { dependency } && forall|i: int|
                    0 <= i < upto ==> is_version(#[trigger] versions[i]) && !admits(
                        dependency.1,
                        versions[i],
                    )
                ||| exists|at: int|
                    0 <= at < upto && failure == (Failure::VersionParse {
                        version: #[trigger] versions[at],
                    }) && !is_version(versions[at])
            },
        },
    decreases upto,
{
    if upto > 0 && is_version(versions[upto - 1]) && !admits(dependency.1, versions[upto - 1]) {
        lemma_chosen_is_last_admitted(dependency, versions, upto - 1);
    }
}

/// Chooses a version for a dependency among those that a registry lists, and
/// returns its place in the list.
pub fn match_version(dependency: &Dependency, versions: &Vec<String>) -> (result: Result<
    usize,
    ResolveError,
>)
    ensures
        match result {
            Ok(at) => chosen_version(dependency@, texts_of(versions@)) == Ok::<int, Failure>(
                at as int,
            ) && at < versions.len(),
            Err(error) => chosen_version(dependency@, texts_of(versions@)) == Err::<int, Failure>(
                error@,
            ),
        },
{
    if !is_valid_constraint(dependency.version.as_str()) {
        return Err(ResolveError::ConstraintParse { dependency: dependency.clone() });
    }
    let ghost texts = texts_of(versions@);
    let mut upto: usize = versions.len();
    while upto > 0
        invariant
            upto <= versions.len(),
            texts == texts_of(versions@),
            is_constraint(dependency@.1),
            chosen_version(dependency@, texts) == search_back(dependency@, texts, upto as int),
        decreases upto,
    {
        let version = &versions[upto - 1];
        assert(texts[upto - 1] == version@);
        if !is_valid_version(version.as_str()) {
            return Err(ResolveError::VersionParse { version: version.clone() });
        }
        if range_test(dependency.version.as_str(), version.as_str()) {
            return Ok(upto - 1);
        }
        upto -= 1;
    }
    Err(ResolveError::NoMatchingVersion { dependency: dependency.clone() })
}

} // verus!
