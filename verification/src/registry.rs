//! What the resolver needs of a registry: where to ask, and what to take
//! from the answers. Asking is left to the caller.

use vstd::prelude::*;
use vstd::string::*;
use vstd::utf8::encode_utf8;
use percent_encoding::utf8_percent_encode;
use percent_encoding::PATH_SEGMENT_ENCODE_SET;
use serde_json::Value;
use crate::dependency::keys_of;
use crate::dependency::Dependency;
use crate::dependency::DependencyKey;
use crate::error::Failure;
use crate::error::RegistryProblem;
use crate::error::ResolveError;
use crate::json::entries_of;
use crate::json::entries_view;
use crate::json::json_parsed;
use crate::json::json_view;
use crate::json::member;
use crate::json::member_of;
use crate::json::object_entries;
use crate::json::parse_document;
use crate::json::EntryView;
use crate::json::JsonView;
use crate::manifest::declared_by;
use crate::manifest::serde_json_value_to_dependencies;
use crate::matcher::chosen_version;
use crate::matcher::match_version;
use crate::matcher::texts_of;
use crate::semver::is_constraint;
use crate::semver::is_valid_constraint;

verus! {

/// The registry that is asked.
pub const REGISTRY: &'static str = "https://registry.npmjs.org";

/// Whether a byte cannot stand in a segment of the path of a URL as it is:
/// what is no printable ASCII character, the space, and
/// `"`, `#`, `<`, `>`, `` ` ``, `?`, `{`, `}`, `%`, `/`.
pub open spec fn is_escaped(byte: u8) -> bool {
    ||| byte < 0x20
    ||| byte > 0x7E
    ||| byte == 0x20
    ||| byte == 0x22
    ||| byte == 0x23
    ||| byte == 0x3C
    ||| byte == 0x3E
    ||| byte == 0x60
    ||| byte == 0x3F
    ||| byte == 0x7B
    ||| byte == 0x7D
    ||| byte == 0x25
    ||| byte == 0x2F
}

/// The digit for a value below sixteen, with capital letters from ten on.
pub open spec fn hex_digit(value: int) -> char {
    if value < 10 {
        ((value + 0x30) as u8) as char
    } else {
        ((value - 10 + 0x41) as u8) as char
    }
}

/// A byte as it stands in a path segment: itself, or `%` and its two
/// hexadecimal digits.
pub open spec fn escaped_byte(byte: u8) -> Seq<char> {
    if is_escaped(byte) {
        seq!['%', hex_digit(byte as int / 16), hex_digit(byte as int % 16)]
    } else {
        seq![byte as char]
    }
}

/// Bytes as they stand in a path segment, one after the other.
pub open spec fn escaped_bytes(bytes: Seq<u8>) -> Seq<char>
    decreases bytes.len(),
{
    if bytes.len() == 0 {
        Seq::empty()
    } else {
        escaped_bytes(bytes.drop_last()) + escaped_byte(bytes.last())
    }
}

/// A text as one segment of the path of a URL: the bytes of its UTF-8 form,
/// escaped where they have to be.
pub open spec fn path_segment_encoded(text: Seq<char>) -> Seq<char> {
    escaped_bytes(encode_utf8(text))
}

/// `percent_encoding::utf8_percent_encode` with `PATH_SEGMENT_ENCODE_SET`,
/// written out as a string: each byte of the text that is in the set becomes
/// `%` and two capital hexadecimal digits, the others stay.
#[verifier::external_body]
fn encode_path_segment(text: &str) -> (encoded: String)
    ensures
        encoded@ == path_segment_encoded(text@),
{
    utf8_percent_encode(text, PATH_SEGMENT_ENCODE_SET).to_string()
}

/// The URL under which a registry at `base` tells of all versions of a
/// package, from the name as a path segment.
pub fn package_url_at(base: &str, name_segment: &str) -> (url: String)
    ensures
        url@ == base@ + "/"@ + name_segment@,
{
    base.to_owned().concat("/").concat(name_segment)
}

/// The URL under which a registry at `base` tells of one version of a
/// package, from the name and the version as path segments.
pub fn version_url_at(base: &str, name_segment: &str, version_segment: &str) -> (url: String)
    ensures
        url@ == base@ + "/"@ + name_segment@ + "/"@ + version_segment@,
{
    base.to_owned().concat("/").concat(name_segment).concat("/").concat(version_segment)
}

/// The URL under which the registry tells of all versions of the package of
/// a dependency.
pub fn package_url(dependency: &Dependency) -> (url: String)
    ensures
        url@ == REGISTRY@ + "/"@ + path_segment_encoded(dependency@.0),
{
    let name = encode_path_segment(dependency.name.as_str());
    package_url_at(REGISTRY, name.as_str())
}

/// The URL under which the registry tells of one version of the package of a
/// dependency.
pub fn version_url(dependency: &Dependency, version: &str) -> (url: String)
    ensures
        url@ == REGISTRY@ + "/"@ + path_segment_encoded(dependency@.0) + "/"@
            + path_segment_encoded(version@),
{
    let name = encode_path_segment(dependency.name.as_str());
    let version = encode_path_segment(version);
    version_url_at(REGISTRY, name.as_str(), version.as_str())
}

/// The document in an answer of the registry.
pub fn parse_registry_body(body: &str) -> (result: Result<Value, ResolveError>)
    ensures
        match result {
            Ok(document) => json_parsed(body@) == Some(json_view(document)),
            Err(error) => json_parsed(body@) is None && error@ == (Failure::RegistryFetch {
                problem: RegistryProblem::Body,
            }),
        },
{
    match parse_document(body) {
        Ok(document) => Ok(document),
        Err(_) => Err(ResolveError::RegistryFetch { problem: RegistryProblem::Body }),
    }
}

/// The keys of a list of members.
pub open spec fn keys_in(entries: Seq<EntryView>) -> Seq<Seq<char>> {
    Seq::new(entries.len(), |i: int| entries[i].0)
}

/// The version that is chosen for a dependency from what the registry tells
/// of its package: among the keys under `versions`, in their order, the last
/// one that the constraint admits.
pub open spec fn matching_version(
    dependency: DependencyKey,
    root_metadata: JsonView,
) -> Result<Seq<char>, Failure> {
    if !is_constraint(dependency.1) {
        Err(Failure::ConstraintParse { dependency })
    } else {
        match entries_of(member_of(root_metadata, "versions"@)) {
            None => Err(Failure::RegistryFetch { problem: RegistryProblem::Versions }),
            Some(entries) => match chosen_version(dependency, keys_in(entries)) {
                Ok(at) => Ok(entries[at].0),
                Err(failure) => Err(failure),
            },
        }
    }
}

/// Chooses a version for a dependency from what the registry tells of its
/// package. What the registry tells of that version stands in the document
/// under `versions` and the version.
pub fn fetch_matching_version_metadata(dependency: &Dependency, root_metadata: &Value) -> (result:
    Result<String, ResolveError>)
    ensures
        match result {
            Ok(version) => matching_version(dependency@, json_view(*root_metadata)) == Ok::<
                Seq<char>,
                Failure,
            >(version@),
            Err(error) => matching_version(dependency@, json_view(*root_metadata)) == Err::<
                Seq<char>,
                Failure,
            >(error@),
        },
{
    if !is_valid_constraint(dependency.version.as_str()) {
        return Err(ResolveError::ConstraintParse { dependency: dependency.clone() });
    }
    match object_entries(member(root_metadata, "versions")) {
        None => Err(ResolveError::RegistryFetch { problem: RegistryProblem::Versions }),
        Some(entries) => {
            let mut versions: Vec<String> = Vec::new();
            let mut i: usize = 0;
            while i < entries.len()
                invariant
                    i <= entries.len(),
                    versions.len() == i,
                    forall|j: int| 0 <= j < i ==> (#[trigger] versions[j])@ == entries[j].0@,
                decreases entries.len() - i,
            {
                versions.push(entries[i].0.clone());
                i += 1;
            }
            assert(texts_of(versions@) =~= keys_in(entries_view(entries@)));
            match match_version(dependency, &versions) {
                Ok(at) => Ok(versions[at].clone()),
                Err(error) => Err(error),
            }
        },
    }
}

/// The dependencies that one version of a package declares, from what the
/// registry tells of that version: those under `dependencies`, and none where
/// there is no such member.
pub fn declared_dependencies(version_metadata: &Value) -> (result: Result<
    Vec<Dependency>,
    ResolveError,
>)
    ensures
        match result {
            Ok(list) => declared_by(member_of(json_view(*version_metadata), "dependencies"@))
                == Ok::<Seq<DependencyKey>, Failure>(keys_of(list@)),
            Err(error) => declared_by(member_of(json_view(*version_metadata), "dependencies"@))
                == Err::<Seq<DependencyKey>, Failure>(error@),
        },
{
    serde_json_value_to_dependencies(member(version_metadata, "dependencies"))
}

} // verus!
