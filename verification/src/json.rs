//! JSON values as `serde_json` holds them.
use vstd::prelude::*;

verus! {

/// `serde_json::Value`. What a value holds is named by `json_tree`.
#[verifier::external_type_specification]
#[verifier::external_body]
pub struct ExValue(serde_json::Value);

/// `serde_json::Map`. What an object holds is named by `json_members`.
#[verifier::external_type_specification]
#[verifier::external_body]
#[verifier::reject_recursive_types(K)]
#[verifier::reject_recursive_types(V)]
pub struct ExObject<K, V>(serde_json::Map<K, V>);

/// What a JSON value holds.
pub ghost enum JsonTree {
    Null,
    Bool(bool),
    /// A number, by its JSON text.
    Number(Seq<char>),
    Text(Seq<char>),
    Items(Seq<JsonTree>),
    Members(Map<Seq<char>, JsonTree>),
}

/// What a value holds.
pub uninterp spec fn json_tree(value: serde_json::Value) -> JsonTree;

/// What an object holds under each of its keys.
pub uninterp spec fn json_members(object: serde_json::Map<String, serde_json::Value>) -> Map<
    Seq<char>,
    JsonTree,
>;

/// What `members` hold under `key`.
pub open spec fn member(members: Map<Seq<char>, JsonTree>, key: Seq<char>) -> Option<JsonTree> {
    if members.contains_key(key) {
        Some(members[key])
    } else {
        None
    }
}

/// `serde_json::Map::get`: what the object holds under `key`, and nothing where it lacks the key.
#[verifier::external_body]
pub(crate) fn object_get<'a>(
    object: &'a serde_json::Map<String, serde_json::Value>,
    key: &str,
) -> (res: Option<&'a serde_json::Value>)
    ensures
        match res {
            Some(value) => member(json_members(*object), key@) == Some(json_tree(*value)),
            None => member(json_members(*object), key@) is None,
        },
{
    object.get(key)
}

/// `serde_json::Value::as_object`: the members of an object, and nothing for any other value.
#[verifier::external_body]
pub(crate) fn as_object(value: &serde_json::Value) -> (res: Option<
    &serde_json::Map<String, serde_json::Value>,
>)
    ensures
        match res {
            Some(object) => json_tree(*value) == JsonTree::Members(json_members(*object)),
            None => json_tree(*value) !is Members,
        },
{
    value.as_object()
}

/// `serde_json::Value::as_array`: the items of an array in their order, and nothing for any other
/// value.
#[verifier::external_body]
pub(crate) fn as_array(value: &serde_json::Value) -> (res: Option<&Vec<serde_json::Value>>)
    ensures
        match res {
            Some(items) => json_tree(*value) == JsonTree::Items(
                Seq::new(items@.len(), |i: int| json_tree(items@[i])),
            ),
            None => json_tree(*value) !is Items,
        },
{
    value.as_array()
}

/// `serde_json::Value::as_str`: the text of a string, and nothing for any other value.
#[verifier::external_body]
pub(crate) fn as_str(value: &serde_json::Value) -> (res: Option<&str>)
    ensures
        match res {
            Some(text) => json_tree(*value) == JsonTree::Text(text@),
            None => json_tree(*value) !is Text,
        },
{
    value.as_str()
}

/// `serde_json::Error`: why a text could not be read.
#[verifier::external_type_specification]
#[verifier::external_body]
pub struct ExError(serde_json::Error);

/// The JSON text of a value that holds `tree`.
pub uninterp spec fn json_text(tree: JsonTree) -> Seq<char>;

/// What the object holds that `text` is the JSON text of, where it is that of an object.
pub uninterp spec fn json_object(text: Seq<char>) -> Option<Map<Seq<char>, JsonTree>>;

/// Whether the JSON text of a value reads back as the value: it nests at most `depth` levels of
/// arrays and objects, and its numbers are integers.
pub open spec fn reads_back(tree: JsonTree, depth: nat) -> bool
    decreases depth,
{
    match tree {
        JsonTree::Number(text) => forall|i: int|
            0 <= i < text.len() ==> text[i] != '.' && text[i] != 'e' && text[i] != 'E',
        JsonTree::Items(items) => depth > 0 && forall|i: int|
            0 <= i < items.len() ==> reads_back(#[trigger] items[i], (depth - 1) as nat),
        JsonTree::Members(members) => depth > 0 && forall|key: Seq<char>|
            members.contains_key(key) ==> reads_back(#[trigger] members[key], (depth - 1) as nat),
        _ => true,
    }
}

/// `serde_json::to_string` on a value: its JSON text, which is named by `json_text`. A value can
/// always be written, and an object without members is written `{}`. The text of an object reads
/// back as that object, where it nests at most 127 levels, which is as deep as the parser goes, and
/// its numbers are integers, which are read exactly.
#[verifier::external_body]
pub(crate) fn write_value(value: &serde_json::Value) -> (res: Result<String, serde_json::Error>)
    ensures
        res is Ok && res->Ok_0@ == json_text(json_tree(*value)),
        json_tree(*value) == JsonTree::Members(Map::empty()) ==> res->Ok_0@ == "{}"@,
        json_tree(*value) is Members && reads_back(json_tree(*value), 127) ==> json_object(
            res->Ok_0@,
        ) == Some(json_tree(*value)->Members_0),
{
    serde_json::to_string(value)
}

/// `serde_json::from_str` for an object: what it holds is named by `json_object`.
#[verifier::external_body]
pub(crate) fn parse_object(text: &str) -> (res: Result<
    serde_json::Map<String, serde_json::Value>,
    serde_json::Error,
>)
    ensures
        match res {
            Ok(object) => json_object(text@) == Some(json_members(object)),
            Err(_) => json_object(text@) is None,
        },
{
    serde_json::from_str(text)
}

/// `serde_json::Map::new`, as a value: the object that holds nothing.
#[verifier::external_body]
pub(crate) fn empty_object() -> (res: serde_json::Value)
    ensures
        json_tree(res) == JsonTree::Members(Map::empty()),
{
    serde_json::Value::Object(serde_json::Map::new())
}

} // verus!
