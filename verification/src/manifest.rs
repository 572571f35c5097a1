//! From a manifest to the dependencies it declares.

use vstd::prelude::*;
use vstd::string::*;
use serde_json::Value;
use crate::dependency::keys_of;
use crate::dependency::Dependency;
use crate::dependency::DependencyKey;
use crate::error::Failure;
use crate::error::ResolveError;
use crate::json::entries_of;
use crate::json::entries_view;
use crate::json::json_parsed;
use crate::json::json_view;
use crate::json::member;
use crate::json::member_of;
use crate::json::object_entries;
use crate::json::parse_document;
use crate::json::string_text;
use crate::json::text_of;
use crate::json::EntryView;
use crate::json::JsonView;

verus! {

/// A key that begins with an underscore is kept for other uses and declares
/// no dependency.
pub open spec fn is_reserved(key: Seq<char>) -> bool {
    key.len() > 0 && key[0] == '_'
}

/// The dependencies that a mapping from names to constraints declares, in the
/// order of the mapping. Reserved keys are passed over. The first other entry
/// whose constraint is no string makes the mapping malformed.
pub open spec fn declared_in(entries: Seq<EntryView>) -> Result<Seq<DependencyKey>, Failure>
    decreases entries.len(),
{
    if entries.len() == 0 {
        Ok(Seq::empty())
    } else {
        let entry = entries.last();
        match declared_in(entries.drop_last()) {
            Err(failure) => Err(failure),
            Ok(list) => if is_reserved(entry.0) {
                Ok(list)
            } else {
                match entry.1 {
                    Some(constraint) => Ok(list.push((entry.0, constraint))),
                    None => Err(Failure::ManifestShape { entry: Some(entry.0) }),
                }
            },
        }
    }
}

/// The dependencies that a JSON value declares: those of its members, and
/// none if it is no object.
pub open spec fn declared_by(value: JsonView) -> Result<Seq<DependencyKey>, Failure> {
    match entries_of(value) {
        Some(entries) => declared_in(entries),
        None => Ok(Seq::empty()),
    }
}

/// The dependencies that the text of a manifest declares: those under
/// `dependencies`.
pub open spec fn declared_by_manifest(text: Seq<char>) -> Result<Seq<DependencyKey>, Failure> {
    match json_parsed(text) {
        Some(document) => declared_by(member_of(document, "dependencies"@)),
        None => Err(Failure::ManifestShape { entry: None }),
    }
}

/// The package that the text of a manifest describes, as the dependency at
/// the root of a resolution: its name, and its version in the place of a
/// constraint.
pub open spec fn root_of_manifest(text: Seq<char>) -> Result<DependencyKey, Failure> {
    match json_parsed(text) {
        None => Err(Failure::ManifestShape { entry: None }),
        Some(document) => match text_of(member_of(document, "name"@)) {
            None => Err(Failure::ManifestShape { entry: Some("name"@) }),
            Some(name) => match text_of(member_of(document, "version"@)) {
                None => Err(Failure::ManifestShape { entry: Some("version"@) }),
                Some(version) => Ok((name, version)),
            },
        },
    }
}

/// A mapping that is malformed stays so when entries follow.
pub proof fn lemma_failure_stays(entries: Seq<EntryView>, upto: int)
    requires
        0 <= upto <= entries.len(),
        declared_in(entries.take(upto)) is Err,
    ensures
        declared_in(entries) == declared_in(entries.take(upto)),
    decreases entries.len() - upto,
{
    if upto < entries.len() {
        assert(entries.take(upto + 1).drop_last() =~= entries.take(upto));
        lemma_failure_stays(entries, upto + 1);
    } else {
        assert(entries.take(upto) =~= entries);
    }
}

/// Whether a key is reserved.
pub fn is_reserved_key(key: &str) -> (reserved: bool)
    ensures
        reserved == is_reserved(key@),
{
    !key.is_empty() && key.get_char(0) == '_'
}

/// The dependencies that a list of members declares.
pub fn dependencies_from_entries(entries: &Vec<(String, Option<String>)>) -> (result: Result<
    Vec<Dependency>,
    ResolveError,
>)
    ensures
        match result {
            Ok(list) => declared_in(entries_view(entries@)) == Ok::<Seq<DependencyKey>, Failure>(
                keys_of(list@),
            ),
            Err(error) => declared_in(entries_view(entries@)) == Err::<
                Seq<DependencyKey>,
                Failure,
            >(error@),
        },
{
    let ghost views = entries_view(entries@);
    let mut list: Vec<Dependency> = Vec::new();
    let mut i: usize = 0;
    assert(keys_of(list@) =~= Seq::empty());
    while i < entries.len()
        invariant
            i <= entries.len(),
            views == entries_view(entries@),
            declared_in(views.take(i as int)) == Ok::<Seq<DependencyKey>, Failure>(keys_of(list@)),
        decreases entries.len() - i,
    {
        let entry = &entries[i];
        let ghost before = keys_of(list@);
        proof {
            assert(views.take(i + 1).drop_last() =~= views.take(i as int));
            assert(views.take(i + 1).last() == views[i as int]);
        }
        if !is_reserved_key(entry.0.as_str()) {
            match &entry.1 {
                Some(constraint) => {
                    list.push(Dependency { name: entry.0.clone(), version: constraint.clone() });
                    assert(keys_of(list@) =~= before.push((entry.0@, constraint@)));
                },
                None => {
                    proof {
                        lemma_failure_stays(views, i + 1);
                    }
                    return Err(ResolveError::ManifestShape { entry: Some(entry.0.clone()) });
                },
            }
        }
        i += 1;
    }
    assert(views.take(i as int) =~= views);
    Ok(list)
}

/// The dependencies that a JSON value declares. A value that is no object
/// declares none.
pub fn serde_json_value_to_dependencies(root: &Value) -> (result: Result<
    Vec<Dependency>,
    ResolveError,
>)
    ensures
        match result {
            Ok(list) => declared_by(json_view(*root)) == Ok::<Seq<DependencyKey>, Failure>(
                keys_of(list@),
            ),
            Err(error) => declared_by(json_view(*root)) == Err::<Seq<DependencyKey>, Failure>(
                error@,
            ),
        },
{
    match object_entries(root) {
        Some(entries) => dependencies_from_entries(&entries),
        None => {
            let list: Vec<Dependency> = Vec::new();
            assert(keys_of(list@) =~= Seq::empty());
            Ok(list)
        },
    }
}

/// The dependencies that the text of a manifest declares. A manifest without
/// `dependencies` declares none.
pub fn json_to_dependencies(text: &str) -> (result: Result<Vec<Dependency>, ResolveError>)
    ensures
        match result {
            Ok(list) => declared_by_manifest(text@) == Ok::<Seq<DependencyKey>, Failure>(
                keys_of(list@),
            ),
            Err(error) => declared_by_manifest(text@) == Err::<Seq<DependencyKey>, Failure>(
                error@,
            ),
        },
{
    match parse_document(text) {
        Ok(document) => serde_json_value_to_dependencies(member(&document, "dependencies")),
        Err(_) => Err(ResolveError::ManifestShape { entry: None }),
    }
}

/// The package that the text of a manifest describes, as the root of a
/// resolution.
pub fn root_dependency(text: &str) -> (result: Result<Dependency, ResolveError>)
    ensures
        match result {
            Ok(root) => root_of_manifest(text@) == Ok::<DependencyKey, Failure>(root@),
            Err(error) => root_of_manifest(text@) == Err::<DependencyKey, Failure>(error@),
        },
{
    match parse_document(text) {
        Err(_) => Err(ResolveError::ManifestShape { entry: None }),
        Ok(document) => match string_text(member(&document, "name")) {
            None => Err(ResolveError::ManifestShape { entry: Some("name".to_owned()) }),
            Some(name) => match string_text(member(&document, "version")) {
                None => Err(ResolveError::ManifestShape { entry: Some("version".to_owned()) }),
                Some(version) => Ok(Dependency { name, version }),
            },
        },
    }
}

} // verus!
