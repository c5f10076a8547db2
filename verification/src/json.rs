//! The JSON documents that the conversion works on: `serde_json::Value`,
//! seen through a mathematical tree, and the operations on it that only
//! `serde_json` and `json5` can perform.

use vstd::prelude::*;
use serde_json::{Number, Value};

verus! {

#[verifier::external_type_specification]
#[verifier::external_body]
pub struct ExValue(Value);

#[verifier::external_type_specification]
#[verifier::external_body]
pub struct ExNumber(Number);

#[verifier::external_type_specification]
#[verifier::external_body]
pub struct ExJson5Error(json5::Error);

/// A JSON document as a tree: what a `serde_json::Value` holds.
/// The members of an object are listed in the order in which the value
/// yields them. Numbers stay `serde_json::Number`s, which the library carries
/// and never reads.
pub enum JsonTree {
    Null,
    Bool(bool),
    Number(Number),
    Text(Seq<char>),
    Array(Seq<JsonTree>),
    Object(Seq<(Seq<char>, JsonTree)>),
}

/// A member of an object: its key and its value.
pub type Member = (Seq<char>, JsonTree);

/// The items of an array (empty for any other tree).
pub open spec fn array_items(t: JsonTree) -> Seq<JsonTree> {
    match t {
        JsonTree::Array(items) => items,
        _ => Seq::empty(),
    }
}

/// The members of an object (empty for any other tree).
pub open spec fn object_members(t: JsonTree) -> Seq<Member> {
    match t {
        JsonTree::Object(members) => members,
        _ => Seq::empty(),
    }
}

/// No two members of `members` have the same key.
pub open spec fn distinct_keys(members: Seq<Member>) -> bool {
    forall|i: int, j: int| 0 <= i < j < members.len() ==> members[i].0 != members[j].0
}

/// What a `serde_json::Value` holds, as a tree. The operations on values
/// below state their effect over it: they take values apart into the
/// items and members that the tree lists, and build values whose trees are
/// made of the trees of their parts.
pub uninterp spec fn json_tree(value: Value) -> JsonTree;

/// The trees of a sequence of values.
pub open spec fn trees_of(values: Seq<Value>) -> Seq<JsonTree> {
    values.map_values(|v: Value| json_tree(v))
}

/// The member that a key/value pair holds.
pub open spec fn member_of(pair: (String, Value)) -> Member {
    (pair.0@, json_tree(pair.1))
}

/// The members held by a sequence of key/value pairs.
pub open spec fn members_of(pairs: Seq<(String, Value)>) -> Seq<Member> {
    pairs.map_values(|p: (String, Value)| member_of(p))
}

/// The kind of a value, as far as key sorting is concerned.
pub enum ValueKind {
    Object,
    Array,
    Scalar,
}

/// Tells the variants of a `serde_json::Value` apart: objects, arrays, and
/// all the others (null, booleans, numbers, strings).
#[verifier::external_body]
pub(crate) fn value_kind(value: &Value) -> (kind: ValueKind)
    ensures
        kind is Object <==> json_tree(*value) is Object,
        kind is Array <==> json_tree(*value) is Array,
{
    match value {
        Value::Object(_) => ValueKind::Object,
        Value::Array(_) => ValueKind::Array,
        Value::Null => ValueKind::Scalar,
        Value::Bool(_) => ValueKind::Scalar,
        Value::Number(_) => ValueKind::Scalar,
        Value::String(_) => ValueKind::Scalar,
    }
}

/// `std::mem::take` on a `serde_json::Value`: returns the value and leaves
/// `Value::Null` (its `Default`) in its place.
#[verifier::external_body]
pub(crate) fn take_value(value: &mut Value) -> (taken: Value)
    ensures
        taken == *old(value),
        json_tree(*final(value)) == JsonTree::Null,
{
    std::mem::take(value)
}

/// The items of a `Value::Array`, moved out of it, in their order.
#[verifier::external_body]
pub(crate) fn into_items(value: Value) -> (items: Vec<Value>)
    requires
        json_tree(value) is Array,
    ensures
        trees_of(items@) == array_items(json_tree(value)),
{
    match value {
        Value::Array(items) => items,
        _ => Vec::new(),
    }
}

/// The members of a `Value::Object`, moved out of its `serde_json::Map` by
/// the map's `into_iter`, in the order in which the map yields them. A map
/// holds each key once.
#[verifier::external_body]
pub(crate) fn into_members(value: Value) -> (members: Vec<(String, Value)>)
    requires
        json_tree(value) is Object,
    ensures
        members_of(members@) == object_members(json_tree(value)),
        distinct_keys(members_of(members@)),
{
    match value {
        Value::Object(map) => map.into_iter().collect(),
        _ => Vec::new(),
    }
}

/// `Value::Array` built from the given items.
#[verifier::external_body]
pub(crate) fn array_value(items: Vec<Value>) -> (value: Value)
    ensures
        json_tree(value) == JsonTree::Array(trees_of(items@)),
{
    Value::Array(items)
}

/// `Value::Object` built by collecting the given members into a
/// `serde_json::Map` (`FromIterator`). With the `preserve_order` feature the
/// map is an `IndexMap`, which keeps members with distinct keys in the order
/// in which they were inserted.
#[verifier::external_body]
pub(crate) fn object_value(members: Vec<(String, Value)>) -> (value: Value)
    requires
        distinct_keys(members_of(members@)),
    ensures
        json_tree(value) == JsonTree::Object(members_of(members@)),
{
    Value::Object(members.into_iter().collect())
}

/// The document that `json5::from_str` reads from a text, as a tree, where
/// it reads one.
pub uninterp spec fn json5_tree(text: Seq<char>) -> Option<JsonTree>;

/// `json5::from_str::<serde_json::Value>`: parses a JSON5 text. A document
/// that it reads depends on the text alone and is named `json5_tree`.
/// Whether it reads one is not stated: besides refusing text that is not
/// JSON5, the `pest` parser under it refuses any text once the calling
/// thread's stack runs low or a process-wide call limit is reached, so the
/// same text can be read in one call and refused in another. Which error it
/// reports is not stated either.
#[verifier::external_body]
pub(crate) fn parse_json5(text: &str) -> (res: Result<Value, json5::Error>)
    ensures
        res matches Ok(value) ==> json5_tree(text@) == Some(json_tree(value)),
{
    json5::from_str::<Value>(text)
}

} // verus!
