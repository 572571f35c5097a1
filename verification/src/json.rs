//! JSON documents, as `serde_json` reads them.
//!
//! A document stays a `serde_json::Value`. The library reads from it through
//! the functions of this file, and speaks of it by what it holds.

use vstd::prelude::*;
use serde_json::Value;

verus! {

#[verifier::external_type_specification]
#[verifier::external_body]
pub struct ExValue(Value);

#[verifier::external_type_specification]
#[verifier::external_body]
pub struct ExJsonError(serde_json::Error);

/// What a JSON value is to this library: a string with its text, an object
/// with its members in the order in which it holds them, or anything else
/// (null, a boolean, a number, an array).
pub enum JsonView {
    Text(Seq<char>),
    Object(Seq<(Seq<char>, JsonView)>),
    Other,
}

/// A member of a JSON object as the library reads it: its key, and its text
/// if it is a string.
pub type EntryView = (Seq<char>, Option<Seq<char>>);

/// What a value holds.
pub uninterp spec fn json_view(value: Value) -> JsonView;

/// What the document holds that a text is read as, if it is a JSON document.
pub uninterp spec fn json_parsed(text: Seq<char>) -> Option<JsonView>;

/// Whether some member has this key.
pub open spec fn has_member(members: Seq<(Seq<char>, JsonView)>, key: Seq<char>) -> bool {
    exists|i: int| 0 <= i < members.len() && (#[trigger] members[i]).0 == key
}

/// The member of a value under a key. An object holds no key twice. A value
/// that is no object, or has no such member, gives the null value.
pub open spec fn member_of(view: JsonView, key: Seq<char>) -> JsonView {
    match view {
        JsonView::Object(members) => if has_member(members, key) {
            members[choose|i: int| 0 <= i < members.len() && (#[trigger] members[i]).0 == key].1
        } else {
            JsonView::Other
        },
        _ => JsonView::Other,
    }
}

/// The text of a string; nothing for another value.
pub open spec fn text_of(view: JsonView) -> Option<Seq<char>> {
    match view {
        JsonView::Text(text) => Some(text),
        _ => None,
    }
}

/// The members of an object, each with its key and its text; nothing for a
/// value that is no object.
pub open spec fn entries_of(view: JsonView) -> Option<Seq<EntryView>> {
    match view {
        JsonView::Object(members) => Some(
            Seq::new(members.len(), |i: int| (members[i].0, text_of(members[i].1))),
        ),
        _ => None,
    }
}

/// A member as specifications see it.
pub open spec fn entry_view(entry: (String, Option<String>)) -> EntryView {
    (
        entry.0@,
        match entry.1 {
            Some(text) => Some(text@),
            None => None,
        },
    )
}

/// A list of members as specifications see it.
pub open spec fn entries_view(list: Seq<(String, Option<String>)>) -> Seq<EntryView> {
    Seq::new(list.len(), |i: int| entry_view(list[i]))
}

/// `serde_json::from_str` for a `Value`: the document, or the error of a text
/// that is none.
#[verifier::external_body]
pub(crate) fn parse_document(text: &str) -> (parsed: Result<Value, serde_json::Error>)
    ensures
        match parsed {
            Ok(value) => json_parsed(text@) == Some(json_view(value)),
            Err(_) => json_parsed(text@) is None,
        },
{
    serde_json::from_str(text)
}

/// Indexing a `Value` by a string: the member under that key, or the null
/// value.
#[verifier::external_body]
pub(crate) fn member<'a>(value: &'a Value, key: &str) -> (found: &'a Value)
    ensures
        json_view(*found) == member_of(json_view(*value), key@),
{
    &value[key]
}

/// `Value::as_object`, and of each member its key and `Value::as_str`. The
/// object is a map: no two members have the same key.
#[verifier::external_body]
pub(crate) fn object_entries(value: &Value) -> (listed: Option<Vec<(String, Option<String>)>>)
    ensures
        match listed {
            Some(list) => entries_of(json_view(*value)) == Some(entries_view(list@)) && forall|
                i: int,
                j: int,
            |
                0 <= i < j < list.len() ==> (#[trigger] list[i]).0@ != (#[trigger] list[j]).0@,
            None => entries_of(json_view(*value)) is None,
        },
{
    value.as_object().map(
        |object|
            object.iter().map(
                |(key, member)| (key.clone(), member.as_str().map(|text| text.to_owned())),
            ).collect(),
    )
}

/// `Value::as_str`.
#[verifier::external_body]
pub(crate) fn string_text(value: &Value) -> (found: Option<String>)
    ensures
        match found {
            Some(text) => text_of(json_view(*value)) == Some(text@),
            None => text_of(json_view(*value)) is None,
        },
{
    value.as_str().map(|text| text.to_owned())
}

} // verus!
