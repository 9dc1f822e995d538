//! JSON documents as collections: from the path of member names to the value found there.
use crate::binary64::Binary64;
use crate::error::{BillError, BillErrorView};
use serde_json::Value;
use vstd::prelude::*;

verus! {

/// A value of a JSON document.
#[verifier::external_type_specification]
#[verifier::external_body]
pub struct ExValue(serde_json::Value);

/// What stands at one place of a document.
pub enum JsonLeaf {
    /// A string.
    Text(Seq<char>),
    /// A number.
    Number {
        /// Its value, where it is written as a whole number from zero up and fits 64 bits.
        unsigned: Option<u64>,
        /// The bits of the binary64 number that stands for it, where there is one.
        bits: Option<u64>,
    },
    /// Anything else: an object, an array, a truth value or null.
    Other,
}

/// What a document holds, by the names of the members that lead there.
pub uninterp spec fn json_contents(value: Value) -> Map<Seq<Seq<char>>, JsonLeaf>;

/// What a text holds when it is read as a JSON document, or the sentence that says why it cannot
/// be read as one.
pub uninterp spec fn json_document(text: Seq<char>) -> Result<
    Map<Seq<Seq<char>>, JsonLeaf>,
    Seq<char>,
>;

/// What a document holds below one of its members.
pub open spec fn below(
    contents: Map<Seq<Seq<char>>, JsonLeaf>,
    name: Seq<char>,
) -> Map<Seq<Seq<char>>, JsonLeaf> {
    Map::new(
        |path: Seq<Seq<char>>| contents.dom().contains(seq![name] + path),
        |path: Seq<Seq<char>>| contents[seq![name] + path],
    )
}

/// What a document holds below a member, where it has that member.
pub open spec fn member(
    contents: Map<Seq<Seq<char>>, JsonLeaf>,
    name: Seq<char>,
) -> Option<Map<Seq<Seq<char>>, JsonLeaf>> {
    if contents.dom().contains(seq![name]) {
        Some(below(contents, name))
    } else {
        None
    }
}

/// The string that a document is.
pub open spec fn string_at_root(contents: Map<Seq<Seq<char>>, JsonLeaf>) -> Option<Seq<char>> {
    match contents[Seq::empty()] {
        JsonLeaf::Text(text) => Some(text),
        _ => None,
    }
}

/// The whole number that a document is.
pub open spec fn unsigned_at_root(contents: Map<Seq<Seq<char>>, JsonLeaf>) -> Option<u64> {
    match contents[Seq::empty()] {
        JsonLeaf::Number { unsigned, .. } => unsigned,
        _ => None,
    }
}

/// The binary64 number that a document is.
pub open spec fn number_at_root(contents: Map<Seq<Seq<char>>, JsonLeaf>) -> Option<Binary64> {
    match contents[Seq::empty()] {
        JsonLeaf::Number { bits: Some(bits), .. } => Some(Binary64 { bits }),
        _ => None,
    }
}

/// The string that a member is.
pub open spec fn string_member(
    contents: Map<Seq<Seq<char>>, JsonLeaf>,
    name: Seq<char>,
) -> Option<Seq<char>> {
    match member(contents, name) {
        Some(found) => string_at_root(found),
        None => None,
    }
}

/// The whole number that a member is.
pub open spec fn unsigned_member(
    contents: Map<Seq<Seq<char>>, JsonLeaf>,
    name: Seq<char>,
) -> Option<u64> {
    match member(contents, name) {
        Some(found) => unsigned_at_root(found),
        None => None,
    }
}

/// The binary64 number that a member is.
pub open spec fn number_member(
    contents: Map<Seq<Seq<char>>, JsonLeaf>,
    name: Seq<char>,
) -> Option<Binary64> {
    match member(contents, name) {
        Some(found) => number_at_root(found),
        None => None,
    }
}

/// The contents of an optional string.
pub open spec fn text_view(text: Option<String>) -> Option<Seq<char>> {
    match text {
        Some(found) => Some(found@),
        None => None,
    }
}

/// `serde_json::from_str` reads a text as one JSON document; where it is none, the error's own
/// sentence says why.
#[verifier::external_body]
fn parse(text: &str) -> (document: Result<Value, String>)
    ensures
        json_document(text@) == (match document {
            Ok(value) => Ok::<Map<Seq<Seq<char>>, JsonLeaf>, Seq<char>>(json_contents(value)),
            Err(detail) => Err::<Map<Seq<Seq<char>>, JsonLeaf>, Seq<char>>(detail@),
        }),
{
    serde_json::from_str(text).map_err(|failure: serde_json::Error| failure.to_string())
}

/// `Value::get` with a name finds that member of an object; no other value has members.
#[verifier::external_body]
pub(crate) fn get<'a>(value: &'a Value, name: &str) -> (found: Option<&'a Value>)
    ensures
        match found {
            Some(inner) => member(json_contents(*value), name@) == Some(json_contents(*inner)),
            None => member(json_contents(*value), name@) is None,
        },
{
    value.get(name)
}

/// `Value::as_str` gives the characters of a string, and nothing for any other value.
#[verifier::external_body]
fn as_string(value: &Value) -> (text: Option<String>)
    ensures
        text_view(text) == string_at_root(json_contents(*value)),
{
    value.as_str().map(str::to_owned)
}

/// `Value::as_u64` gives the value of a whole number from zero up that was read as such, and
/// nothing for any other value.
#[verifier::external_body]
fn as_unsigned(value: &Value) -> (number: Option<u64>)
    ensures
        number == unsigned_at_root(json_contents(*value)),
{
    value.as_u64()
}

/// `Value::as_f64` gives the binary64 number that stands for a number, here by its bits, and
/// nothing for any other value.
#[verifier::external_body]
fn as_bits(value: &Value) -> (bits: Option<u64>)
    ensures
        bits == (match number_at_root(json_contents(*value)) {
            Some(number) => Some(number.bits),
            None => None,
        }),
{
    value.as_f64().map(|number| number.to_bits())
}

/// Reads a text as a JSON document.
pub fn read_json(text: &str, location: &str) -> (document: Result<Value, BillError>)
    ensures
        match document {
            Ok(value) => json_document(text@) == Ok::<
                Map<Seq<Seq<char>>, JsonLeaf>,
                Seq<char>,
            >(json_contents(value)),
            Err(failure) => {
                &&& json_document(text@) matches Err(detail)
                &&& failure@ == (BillErrorView::InvalidData { location: location@, detail })
            },
        },
{
    match parse(text) {
        Ok(value) => Ok(value),
        Err(detail) => Err(BillError::InvalidData { location: location.to_owned(), detail }),
    }
}

/// The string that a member is.
pub fn string_field(value: &Value, name: &str) -> (text: Option<String>)
    ensures
        text_view(text) == string_member(json_contents(*value), name@),
{
    match get(value, name) {
        Some(inner) => as_string(inner),
        None => None,
    }
}

/// The whole number that a member is.
pub fn unsigned_field(value: &Value, name: &str) -> (number: Option<u64>)
    ensures
        number == unsigned_member(json_contents(*value), name@),
{
    match get(value, name) {
        Some(inner) => as_unsigned(inner),
        None => None,
    }
}

/// The binary64 number that a member is.
pub fn number_field(value: &Value, name: &str) -> (number: Option<Binary64>)
    ensures
        number == number_member(json_contents(*value), name@),
{
    match get(value, name) {
        Some(inner) => match as_bits(inner) {
            Some(bits) => Some(Binary64::from_bits(bits)),
            None => None,
        },
        None => None,
    }
}

/// Whether a document holds what leads to all that it holds.
pub open spec fn is_rooted(contents: Map<Seq<Seq<char>>, JsonLeaf>) -> bool {
    forall|path: Seq<Seq<char>>|
        path.len() > 0 && #[trigger] contents.dom().contains(path) ==> contents.dom().contains(
            path.drop_last(),
        )
}

/// A member is found where the document holds something under its name, and below it stands what the
/// document holds on the paths that start with that name.
pub proof fn law_members(
    contents: Map<Seq<Seq<char>>, JsonLeaf>,
    name: Seq<char>,
    path: Seq<Seq<char>>,
)
    ensures
        member(contents, name) is Some <==> contents.dom().contains(seq![name]),
        member(contents, name) matches Some(found) ==> {
            &&& found.dom().contains(path) <==> contents.dom().contains(seq![name] + path)
            &&& found.dom().contains(path) ==> found[path] == contents[seq![name] + path]
        },
{
}

/// A member that is a string, a whole number or a number is read as what stands under its name, and
/// as nothing else.
pub proof fn law_member_values(contents: Map<Seq<Seq<char>>, JsonLeaf>, name: Seq<char>)
    ensures
        !contents.dom().contains(seq![name]) ==> string_member(contents, name) is None
            && unsigned_member(contents, name) is None && number_member(contents, name) is None,
        contents.dom().contains(seq![name]) ==> match contents[seq![name]] {
            JsonLeaf::Text(text) => {
                &&& string_member(contents, name) == Some(text)
                &&& unsigned_member(contents, name) is None
                &&& number_member(contents, name) is None
            },
            JsonLeaf::Number { unsigned, bits } => {
                &&& string_member(contents, name) is None
                &&& unsigned_member(contents, name) == unsigned
                &&& match bits {
                    Some(given) => number_member(contents, name) matches Some(number)
                        && number.bits == given,
                    None => number_member(contents, name) is None,
                }
            },
            JsonLeaf::Other => {
                &&& string_member(contents, name) is None
                &&& unsigned_member(contents, name) is None
                &&& number_member(contents, name) is None
            },
        },
{
    assert(seq![name] + Seq::<Seq<char>>::empty() =~= seq![name]);
}

/// The string at a place of a document.
pub open spec fn leaf_text(
    document: Map<Seq<Seq<char>>, JsonLeaf>,
    path: Seq<Seq<char>>,
) -> Option<Seq<char>> {
    if document.dom().contains(path) {
        match document[path] {
            JsonLeaf::Text(text) => Some(text),
            _ => None,
        }
    } else {
        None
    }
}

/// The whole number at a place of a document.
pub open spec fn leaf_unsigned(
    document: Map<Seq<Seq<char>>, JsonLeaf>,
    path: Seq<Seq<char>>,
) -> Option<u64> {
    if document.dom().contains(path) {
        match document[path] {
            JsonLeaf::Number { unsigned, .. } => unsigned,
            _ => None,
        }
    } else {
        None
    }
}

/// The number at a place of a document.
pub open spec fn leaf_number(
    document: Map<Seq<Seq<char>>, JsonLeaf>,
    path: Seq<Seq<char>>,
) -> Option<Binary64> {
    if document.dom().contains(path) {
        match document[path] {
            JsonLeaf::Number { bits: Some(bits), .. } => Some(Binary64 { bits }),
            _ => None,
        }
    } else {
        None
    }
}

/// A text that is there has its own characters as its contents, also where it has none, and one that
/// is not there has no contents.
pub proof fn law_text_contents(text: String)
    ensures
        text_view(Some(text)) == Some(text@),
        text_view(None) is None,
{
}

} // verus!
