//! What installing a dependency takes: where it comes from, and which
//! archive holds it. Fetching and unpacking are left to the caller.

use vstd::prelude::*;
use vstd::string::*;
use serde_json::Value;
use crate::dependency::Dependency;
use crate::dependency::DependencyKey;
use crate::error::Failure;
use crate::error::RegistryProblem;
use crate::error::ResolveError;
use crate::json::json_view;
use crate::json::member;
use crate::json::member_of;
use crate::json::string_text;
use crate::json::text_of;
use crate::json::JsonView;
use crate::registry::fetch_matching_version_metadata;
use crate::registry::matching_version;
use crate::semver::is_constraint;
use crate::semver::is_valid_constraint;

verus! {

/// Whether `text` begins with `prefix`.
pub open spec fn begins_with(text: Seq<char>, prefix: Seq<char>) -> bool {
    prefix.len() <= text.len() && text.take(prefix.len() as int) == prefix
}

/// The place of the last `#` among the first `upto` characters, or -1.
pub open spec fn last_hash(text: Seq<char>, upto: int) -> int
    decreases upto,
{
    if upto <= 0 {
        -1
    } else if text[upto - 1] == '#' {
        upto - 1
    } else {
        last_hash(text, upto - 1)
    }
}

/// Where a dependency comes from.
#[derive(Debug)]
pub enum InstallSource {
    /// From a repository, at a revision if one is named.
    Git { repository: String, revision: Option<String> },
    /// From the registry.
    Registry,
}

/// A source as specifications see it.
pub enum SourceView {
    Git { repository: Seq<char>, revision: Option<Seq<char>> },
    Registry,
}

impl View for InstallSource {
    type V = SourceView;

    open spec fn view(&self) -> SourceView {
        match self {
            InstallSource::Git { repository, revision } => SourceView::Git {
                repository: repository@,
                revision: match revision {
                    Some(text) => Some(text@),
                    None => None,
                },
            },
            InstallSource::Registry => SourceView::Registry,
        }
    }
}

/// The repository and the revision in a constraint that names a repository:
/// what stands before the last `#` and what stands after it, or all of it
/// and no revision.
pub open spec fn git_source(constraint: Seq<char>) -> SourceView {
    let at = last_hash(constraint, constraint.len() as int);
    if at < 0 {
        SourceView::Git { repository: constraint, revision: None }
    } else {
        SourceView::Git {
            repository: constraint.take(at),
            revision: Some(constraint.skip(at + 1)),
        }
    }
}

/// Where a dependency comes from. The constraint has to be a range in any
/// case; one that begins with `git://` names a repository.
pub open spec fn source_of(dependency: DependencyKey) -> Result<SourceView, Failure> {
    if !is_constraint(dependency.1) {
        Err(Failure::ConstraintParse { dependency })
    } else if begins_with(dependency.1, "git://"@) {
        Ok(git_source(dependency.1))
    } else {
        Ok(SourceView::Registry)
    }
}

/// The last `#` stands where `last_hash` says, and none stands after it.
pub proof fn lemma_last_hash(text: Seq<char>, upto: int)
    requires
        0 <= upto <= text.len(),
    ensures
        -1 <= last_hash(text, upto) < upto,
        last_hash(text, upto) >= 0 ==> text[last_hash(text, upto)] == '#',
        forall|i: int| last_hash(text, upto) < i < upto ==> #[trigger] text[i] != '#',
    decreases upto,
{
    if upto > 0 && text[upto - 1] != '#' {
        lemma_last_hash(text, upto - 1);
    }
}

/// Whether `text` begins with `prefix`.
pub fn starts_with(text: &str, prefix: &str) -> (begins: bool)
    ensures
        begins == begins_with(text@, prefix@),
{
    let text_len = text.unicode_len();
    let prefix_len = prefix.unicode_len();
    if prefix_len > text_len {
        return false;
    }
    let mut i: usize = 0;
    while i < prefix_len
        invariant
            i <= prefix_len <= text_len,
            text_len == text@.len(),
            prefix_len == prefix@.len(),
            forall|j: int| 0 <= j < i ==> text@[j] == prefix@[j],
        decreases prefix_len - i,
    {
        if text.get_char(i) != prefix.get_char(i) {
            assert(text@.take(prefix_len as int)[i as int] != prefix@[i as int]);
            return false;
        }
        i += 1;
    }
    assert(text@.take(prefix_len as int) =~= prefix@);
    true
}

/// The repository and the revision in a constraint that names a repository.
pub fn split_repository(constraint: &str) -> (source: InstallSource)
    ensures
        source@ == git_source(constraint@),
{
    let len = constraint.unicode_len();
    let mut upto: usize = len;
    while upto > 0
        invariant
            upto <= len,
            len == constraint@.len(),
            last_hash(constraint@, len as int) == last_hash(constraint@, upto as int),
        decreases upto,
    {
        if constraint.get_char(upto - 1) == '#' {
            let repository = constraint.substring_char(0, upto - 1).to_owned();
            let revision = constraint.substring_char(upto, len).to_owned();
            proof {
                let at = last_hash(constraint@, len as int);
                assert(at == upto - 1);
                assert(repository@ =~= constraint@.take(at));
                assert(revision@ =~= constraint@.skip(at + 1));
            }
            return InstallSource::Git { repository, revision: Some(revision) };
        }
        upto -= 1;
    }
    InstallSource::Git { repository: constraint.to_owned(), revision: None }
}

/// Where a dependency comes from.
pub fn install_source(dependency: &Dependency) -> (result: Result<InstallSource, ResolveError>)
    ensures
        match result {
            Ok(source) => source_of(dependency@) == Ok::<SourceView, Failure>(source@),
            Err(error) => source_of(dependency@) == Err::<SourceView, Failure>(error@),
        },
{
    let constraint = dependency.version.as_str();
    if !is_valid_constraint(constraint) {
        Err(ResolveError::ConstraintParse { dependency: dependency.clone() })
    } else if starts_with(constraint, "git://") {
        Ok(split_repository(constraint))
    } else {
        Ok(InstallSource::Registry)
    }
}

/// The archive of a version.
#[derive(Debug)]
pub struct Tarball {
    pub version: String,
    pub url: String,
}

impl View for Tarball {
    type V = (Seq<char>, Seq<char>);

    open spec fn view(&self) -> (Seq<char>, Seq<char>) {
        (self.version@, self.url@)
    }
}

/// The version that is chosen for a dependency from what the registry tells
/// of its package, and the URL of its archive: the string under `versions`,
/// the version, `dist`, `tarball`.
pub open spec fn tarball_of(
    dependency: DependencyKey,
    root_metadata: JsonView,
) -> Result<(Seq<char>, Seq<char>), Failure> {
    match matching_version(dependency, root_metadata) {
        Err(failure) => Err(failure),
        Ok(version) => match text_of(
            member_of(
                member_of(member_of(member_of(root_metadata, "versions"@), version), "dist"@),
                "tarball"@,
            ),
        ) {
            Some(url) => Ok((version, url)),
            None => Err(Failure::RegistryFetch { problem: RegistryProblem::Tarball }),
        },
    }
}

/// Chooses a version for a dependency from what the registry tells of its
/// package, and finds the URL of its archive.
pub fn select_tarball(dependency: &Dependency, root_metadata: &Value) -> (result: Result<
    Tarball,
    ResolveError,
>)
    ensures
        match result {
            Ok(tarball) => tarball_of(dependency@, json_view(*root_metadata)) == Ok::<
                (Seq<char>, Seq<char>),
                Failure,
            >(tarball@),
            Err(error) => tarball_of(dependency@, json_view(*root_metadata)) == Err::<
                (Seq<char>, Seq<char>),
                Failure,
            >(error@),
        },
{
    match fetch_matching_version_metadata(dependency, root_metadata) {
        Err(error) => Err(error),
        Ok(version) => {
            let versions = member(root_metadata, "versions");
            let dist = member(member(versions, version.as_str()), "dist");
            match string_text(member(dist, "tarball")) {
                Some(url) => Ok(Tarball { version, url }),
                None => Err(ResolveError::RegistryFetch { problem: RegistryProblem::Tarball }),
            }
        },
    }
}

} // verus!
