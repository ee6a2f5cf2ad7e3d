//! Reading vectors from a JSON document.
//!
//! The document is parsed by `serde_json`. What the parser hands back is
//! opaque to the proofs: each call into it is described by a function that
//! names its result, and the code that walks the document is verified against
//! those names.

use crate::error::NnError;
use vstd::prelude::*;

verus! {

/// `serde_json::Value`, a parsed JSON value. Nothing inside it is visible
/// to the proofs.
#[verifier::external_type_specification]
#[verifier::external_body]
pub struct ExJsonValue(serde_json::Value);

/// `serde_json::Error`, the parser's account of a text that it could not
/// read. Nothing inside it is visible to the proofs.
#[verifier::external_type_specification]
#[verifier::external_body]
pub struct ExJsonError(serde_json::Error);

/// The JSON value that `serde_json::from_str` reads from `text`, or `None`
/// where it reports an error.
pub uninterp spec fn json_document(text: Seq<char>) -> Option<serde_json::Value>;

/// The members of a JSON object, each a name and a value, in the order in
/// which `serde_json::Map::iter` walks them; `None` for a value that
/// `serde_json::Value::as_object` does not take for an object.
pub uninterp spec fn json_members(value: serde_json::Value) -> Option<
    Seq<(Seq<char>, serde_json::Value)>,
>;

/// The elements of a JSON array in order; `None` for a value that
/// `serde_json::Value::as_array` does not take for an array.
pub uninterp spec fn json_elements(value: serde_json::Value) -> Option<Seq<serde_json::Value>>;

/// The bit pattern of the binary64 number that `serde_json::Value::as_f64`
/// gives for a JSON number; `None` for a value for which it gives none.
pub uninterp spec fn json_number(value: serde_json::Value) -> Option<u64>;

/// The names and values of a sequence of borrowed members.
pub open spec fn member_views(members: Seq<(&String, &serde_json::Value)>) -> Seq<
    (Seq<char>, serde_json::Value),
> {
    members.map_values(|member: (&String, &serde_json::Value)| (member.0@, *member.1))
}

/// Calls `serde_json::from_str` for a `serde_json::Value`. The result is
/// that of [`json_document`]: the parser is taken to read the same value
/// from the same text every time.
#[verifier::external_body]
fn parse_document(text: &str) -> (parsed: Result<serde_json::Value, serde_json::Error>)
    ensures
        match parsed {
            Ok(value) => json_document(text@) == Some(value),
            Err(_) => json_document(text@) is None,
        },
{
    serde_json::from_str::<serde_json::Value>(text)
}

/// Calls `serde_json::Value::as_object` and collects what
/// `serde_json::Map::iter` yields. The result is that of [`json_members`].
#[verifier::external_body]
fn members_of(value: &serde_json::Value) -> (members: Option<Vec<(&String, &serde_json::Value)>>)
    ensures
        match members {
            Some(found) => json_members(*value) == Some(member_views(found@)),
            None => json_members(*value) is None,
        },
{
    value.as_object().map(|object| object.iter().collect())
}

/// `serde_json::Value::as_array` returns the elements of an array, and
/// `None` for any other value. The result is that of [`json_elements`].
pub assume_specification[ serde_json::Value::as_array ](value: &serde_json::Value) -> (elements:
    Option<&Vec<serde_json::Value>>)
    ensures
        match elements {
            Some(found) => json_elements(*value) == Some(found@),
            None => json_elements(*value) is None,
        },
;

/// Calls `serde_json::Value::as_f64` and takes the bit pattern of the number
/// it gives. The result is that of [`json_number`].
#[verifier::external_body]
fn number_of(value: &serde_json::Value) -> (bits: Option<u64>)
    ensures
        bits == json_number(*value),
{
    value.as_f64().map(|number| number.to_bits())
}

/// Renders a `serde_json::Error` with its `Display` impl, which names the
/// fault and where in the text it is. Nothing is claimed of the wording.
#[verifier::external_body]
fn describe(error: &serde_json::Error) -> (reason: String) {
    error.to_string()
}

/// The vector that a JSON value holds: the numbers of an array, in order.
/// `None` where the value is no array or an element is no number.
pub open spec fn vector_in(value: serde_json::Value) -> Option<Seq<u64>> {
    match json_elements(value) {
        Some(elements) => if forall|i: int|
            0 <= i < elements.len() ==> json_number(#[trigger] elements[i]) is Some {
            Some(Seq::new(elements.len(), |i: int| json_number(elements[i])->0))
        } else {
            None
        },
        None => None,
    }
}

/// The vectors that a JSON document holds: for an object whose every member
/// holds a vector, the members' names with their vectors, in the object's
/// order. `None` for any other document.
pub open spec fn vectors_in(document: serde_json::Value) -> Option<Seq<(Seq<char>, Seq<u64>)>> {
    match json_members(document) {
        Some(members) => if forall|i: int|
            0 <= i < members.len() ==> vector_in((#[trigger] members[i]).1) is Some {
            Some(
                Seq::new(
                    members.len(),
                    |i: int| (members[i].0, vector_in(members[i].1)->0),
                ),
            )
        } else {
            None
        },
        None => None,
    }
}

/// The identifiers and vectors of a sequence of entries.
pub open spec fn entry_views(entries: Seq<(String, Vec<u64>)>) -> Seq<(Seq<char>, Seq<u64>)> {
    entries.map_values(|entry: (String, Vec<u64>)| (entry.0@, entry.1@))
}

/// Reads the vector that a JSON value holds.
fn read_vector(value: &serde_json::Value) -> (vector: Option<Vec<u64>>)
    ensures
        match vector {
            Some(v) => vector_in(*value) == Some(v@),
            None => vector_in(*value) is None,
        },
{
    let elements: &Vec<serde_json::Value> = match value.as_array() {
        Some(found) => found,
        None => {
            return None;
        },
    };
    let mut vector: Vec<u64> = Vec::new();
    let mut i: usize = 0;
    while i < elements.len()
        invariant
            i <= elements.len(),
            vector.len() == i,
            json_elements(*value) == Some(elements@),
            forall|j: int| 0 <= j < i ==> json_number(#[trigger] elements[j]) == Some(vector[j]),
        decreases elements.len() - i,
    {
        match number_of(&elements[i]) {
            Some(bits) => {
                vector.push(bits);
            },
            None => {
                return None;
            },
        }
        i += 1;
    }
    assert(vector@ =~= vector_in(*value)->0);
    Some(vector)
}

/// Reads the vectors that a JSON document holds.
fn read_vectors(document: &serde_json::Value) -> (entries: Option<Vec<(String, Vec<u64>)>>)
    ensures
        match entries {
            Some(found) => vectors_in(*document) == Some(entry_views(found@)),
            None => vectors_in(*document) is None,
        },
{
    let members: Vec<(&String, &serde_json::Value)> = match members_of(document) {
        Some(found) => found,
        None => {
            return None;
        },
    };
    let ghost named = member_views(members@);
    let mut entries: Vec<(String, Vec<u64>)> = Vec::new();
    let mut i: usize = 0;
    while i < members.len()
        invariant
            i <= members.len(),
            entries.len() == i,
            named == member_views(members@),
            json_members(*document) == Some(named),
            forall|j: int|
                0 <= j < i ==> (#[trigger] entries[j]).0@ == named[j].0 && vector_in(named[j].1)
                    == Some(entries[j].1@),
        decreases members.len() - i,
    {
        let member: &(&String, &serde_json::Value) = &members[i];
        assert(named[i as int] == (member.0@, *member.1));
        match read_vector(member.1) {
            Some(vector) => {
                entries.push((member.0.clone(), vector));
            },
            None => {
                return None;
            },
        }
        i += 1;
    }
    proof {
        assert forall|j: int| 0 <= j < named.len() implies vector_in((#[trigger] named[j]).1)
            == Some(entries[j].1@) && named[j].0 == entries[j].0@ by {
            assert(entries[j].0@ == named[j].0);
        }
        assert(vectors_in(*document) is Some);
        assert(entry_views(entries@) =~= vectors_in(*document)->0);
    }
    Some(entries)
}

/// The vectors that a JSON text holds, or why it holds none: the text is no
/// JSON document, or the document is no object of arrays of numbers.
pub open spec fn text_vectors(text: Seq<char>) -> Option<Seq<(Seq<char>, Seq<u64>)>> {
    match json_document(text) {
        Some(document) => vectors_in(document),
        None => None,
    }
}

/// Reads named vectors from a JSON text: an object whose members are arrays
/// of numbers, each member a vector under the member's name. Each number is
/// handed back as the bit pattern of its binary64 value.
pub fn parse_vectors(text: &str) -> (entries: Result<Vec<(String, Vec<u64>)>, NnError>)
    ensures
        match entries {
            Ok(found) => text_vectors(text@) == Some(entry_views(found@)),
            Err(NnError::InvalidJson(_)) => json_document(text@) is None,
            Err(NnError::UnexpectedJson) => json_document(text@) is Some && text_vectors(text@)
                is None,
            Err(_) => false,
        },
{
    match parse_document(text) {
        Ok(document) => match read_vectors(&document) {
            Some(found) => Ok(found),
            None => Err(NnError::UnexpectedJson),
        },
        Err(error) => Err(NnError::InvalidJson(describe(&error))),
    }
}

} // verus!
