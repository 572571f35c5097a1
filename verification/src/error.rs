//! The ways in which a resolution fails.

use vstd::prelude::*;
use crate::dependency::Dependency;
use crate::dependency::DependencyKey;

verus! {

/// What was wrong with an answer of the registry.
#[derive(Debug, Clone, Copy, PartialEq, Eq, Structural)]
pub enum RegistryProblem {
    /// No answer came, or one that reports a failure.
    Transport,
    /// The answer is not a JSON document.
    Body,
    /// The answer lists no versions.
    Versions,
    /// The answer names no archive for the version that was chosen.
    Tarball,
}

/// Why a resolution stopped. Every failure ends the resolution: no partial
/// result is handed out with it.
#[derive(Debug)]
pub enum ResolveError {
    /// The constraint of this dependency is not a range expression, or it
    /// holds a character beyond ASCII or a longer run of digits than the
    /// library computes with.
    ConstraintParse { dependency: Dependency },
    /// A version that the registry reported is not a version: it has not the
    /// form of one, or a number in it is too large.
    VersionParse { version: String },
    /// No published version meets the constraint of this dependency.
    NoMatchingVersion { dependency: Dependency },
    /// The finished graph has a cycle, and this dependency lies on one.
    CyclicDependency { dependency: Dependency },
    /// What the registry answered cannot be used.
    RegistryFetch { problem: RegistryProblem },
    /// A manifest is not of the expected shape: the entry under this key is
    /// not a string, or, where no key is given, the manifest is no JSON
    /// document.
    ManifestShape { entry: Option<String> },
}

/// A failure as specifications see it.
pub enum Failure {
    ConstraintParse { dependency: DependencyKey },
    VersionParse { version: Seq<char> },
    NoMatchingVersion { dependency: DependencyKey },
    CyclicDependency { dependency: DependencyKey },
    RegistryFetch { problem: RegistryProblem },
    ManifestShape { entry: Option<Seq<char>> },
}

impl View for ResolveError {
    type V = Failure;

    open spec fn view(&self) -> Failure {
        match self {
            ResolveError::ConstraintParse { dependency } => Failure::ConstraintParse {
                dependency: dependency@,
            },
            ResolveError::VersionParse { version } => Failure::VersionParse { version: version@ },
            ResolveError::NoMatchingVersion { dependency } => Failure::NoMatchingVersion {
                dependency: dependency@,
            },
            ResolveError::CyclicDependency { dependency } => Failure::CyclicDependency {
                dependency: dependency@,
            },
            ResolveError::RegistryFetch { problem } => Failure::RegistryFetch { problem: *problem },
            ResolveError::ManifestShape { entry } => Failure::ManifestShape {
                entry: match entry {
                    Some(key) => Some(key@),
                    None => None,
                },
            },
        }
    }
}

} // verus!
