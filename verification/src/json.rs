//! One level of a JSON document at a time.
//!
//! A document is decoded into a node: a scalar, the items of an array or the
//! members of an object. Items and member values are handed out as JSON text
//! of their own, to be decoded in turn by whoever needs to look inside.

use vstd::prelude::*;
use serde_json::Value;
use crate::text::same_text;

verus! {

/// A member of a JSON object: its name, and its value as JSON text.
#[derive(Debug, Clone)]
pub struct Member {
    pub name: String,
    pub value: String,
}

/// A decoded JSON document, one level deep.
#[derive(Debug, Clone)]
pub enum JsonNode {
    Null,
    Bool(bool),
    /// A number, as JSON text.
    Number(String),
    /// A string, unescaped.
    Text(String),
    /// The items of an array, each as JSON text.
    Array(Vec<String>),
    /// The members of an object, each value as JSON text.
    Object(Vec<Member>),
}

/// What a `JsonNode` holds, as plain sequences.
pub enum Node {
    Null,
    Bool(bool),
    Number(Seq<char>),
    Text(Seq<char>),
    Array(Seq<Seq<char>>),
    Object(Seq<(Seq<char>, Seq<char>)>),
}

/// The texts held by a vector of strings.
pub open spec fn texts(v: Seq<String>) -> Seq<Seq<char>> {
    Seq::new(v.len(), |i: int| v[i]@)
}

/// The name and value texts held by a vector of members.
pub open spec fn pairs(v: Seq<Member>) -> Seq<(Seq<char>, Seq<char>)> {
    Seq::new(v.len(), |i: int| (v[i].name@, v[i].value@))
}

impl View for JsonNode {
    type V = Node;

    open spec fn view(&self) -> Node {
        match self {
            JsonNode::Null => Node::Null,
            JsonNode::Bool(b) => Node::Bool(*b),
            JsonNode::Number(n) => Node::Number(n@),
            JsonNode::Text(s) => Node::Text(s@),
            JsonNode::Array(items) => Node::Array(texts(items@)),
            JsonNode::Object(members) => Node::Object(pairs(members@)),
        }
    }
}

/// The node that `serde_json` decodes `text` into, with array items and
/// member values in the compact form in which `serde_json` prints a value;
/// `None` where `text` is not one JSON document.
pub uninterp spec fn json_node(text: Seq<char>) -> Option<Node>;

/// No two members have the same name.
pub open spec fn names_differ(members: Seq<(Seq<char>, Seq<char>)>) -> bool {
    forall|i: int, j: int|
        0 <= i < j < members.len() ==> (#[trigger] members[i]).0 != (#[trigger] members[j]).0
}

/// Calls `serde_json::from_str` for a `serde_json::Value` and hands out its
/// top level. The contract claims that the outcome is a function of the
/// text: the same text always decodes to the same node, or always fails.
/// Of an object it claims that no two members have the same name, since
/// `serde_json` keeps the members of an object in a map.
#[verifier::external_body]
pub(crate) fn decode(text: &str) -> (r: Option<JsonNode>)
    ensures
        match r {
            Some(node) => json_node(text@) == Some(node@),
            None => json_node(text@).is_none(),
        },
        r matches Some(JsonNode::Object(members)) ==> names_differ(pairs(members@)),
{
    Some(match serde_json::from_str::<Value>(text).ok()? {
        Value::Null => JsonNode::Null,
        Value::Bool(b) => JsonNode::Bool(b),
        Value::Number(n) => JsonNode::Number(n.to_string()),
        Value::String(s) => JsonNode::Text(s),
        Value::Array(a) => JsonNode::Array(a.iter().map(|v| v.to_string()).collect()),
        Value::Object(m) => JsonNode::Object(
            m.iter().map(|(k, v)| Member { name: k.clone(), value: v.to_string() }).collect(),
        ),
    })
}

/// The members of the object that `text` decodes into, if it is one.
pub open spec fn object_of(text: Seq<char>) -> Option<Seq<(Seq<char>, Seq<char>)>> {
    match json_node(text) {
        Some(Node::Object(members)) => Some(members),
        _ => None,
    }
}

/// The items of the array that `text` decodes into, if it is one.
pub open spec fn array_of(text: Seq<char>) -> Option<Seq<Seq<char>>> {
    match json_node(text) {
        Some(Node::Array(items)) => Some(items),
        _ => None,
    }
}

/// The string that `text` decodes into, if it is one.
pub open spec fn string_of(text: Seq<char>) -> Option<Seq<char>> {
    match json_node(text) {
        Some(Node::Text(s)) => Some(s),
        _ => None,
    }
}

/// Index `i` is the first member of `members` called `name`.
pub open spec fn is_first_named(members: Seq<(Seq<char>, Seq<char>)>, name: Seq<char>, i: int) -> bool {
    &&& 0 <= i < members.len()
    &&& members[i].0 == name
    &&& forall|k: int| 0 <= k < i ==> (#[trigger] members[k]).0 != name
}

/// The value text of the first member called `name`, if there is one.
pub open spec fn value_of(members: Seq<(Seq<char>, Seq<char>)>, name: Seq<char>) -> Option<Seq<char>> {
    if exists|i: int| is_first_named(members, name, i) {
        Some(members[choose|i: int| is_first_named(members, name, i)].1)
    } else {
        None
    }
}

/// Decodes `text` and hands out its members if it is an object.
pub fn object_members(text: &str) -> (r: Option<Vec<Member>>)
    ensures
        match r {
            Some(members) => object_of(text@) == Some(pairs(members@)) && names_differ(
                pairs(members@),
            ),
            None => object_of(text@).is_none(),
        },
{
    match decode(text) {
        Some(JsonNode::Object(members)) => Some(members),
        _ => None,
    }
}

/// Decodes `text` and hands out its items if it is an array.
pub fn array_items(text: &str) -> (r: Option<Vec<String>>)
    ensures
        match r {
            Some(items) => array_of(text@) == Some(texts(items@)),
            None => array_of(text@).is_none(),
        },
{
    match decode(text) {
        Some(JsonNode::Array(items)) => Some(items),
        _ => None,
    }
}

/// Decodes `text` and hands out the string if it is one.
pub fn string_value(text: &str) -> (r: Option<String>)
    ensures
        match r {
            Some(s) => string_of(text@) == Some(s@),
            None => string_of(text@).is_none(),
        },
{
    match decode(text) {
        Some(JsonNode::Text(s)) => Some(s),
        _ => None,
    }
}

/// The value text of the first member called `name`.
pub fn member_value<'a>(members: &'a Vec<Member>, name: &str) -> (r: Option<&'a String>)
    ensures
        match r {
            Some(value) => value_of(pairs(members@), name@) == Some(value@),
            None => value_of(pairs(members@), name@).is_none(),
        },
{
    let mut i: usize = 0;
    while i < members.len()
        invariant
            i <= members.len(),
            forall|k: int| 0 <= k < i ==> (#[trigger] pairs(members@)[k]).0 != name@,
        decreases members.len() - i,
    {
        if same_text(members[i].name.as_str(), name) {
            proof {
                let all = pairs(members@);
                assert(is_first_named(all, name@, i as int));
                let c = choose|c: int| is_first_named(all, name@, c);
                if c < i {
                    assert(all[c].0 != name@);
                } else if i < c {
                    assert(all[i as int].0 != name@);
                }
            }
            return Some(&members[i].value);
        }
        i += 1;
    }
    proof {
        let all = pairs(members@);
        assert forall|c: int| !is_first_named(all, name@, c) by {
            if 0 <= c < all.len() {
                assert(all[c].0 != name@);
            }
        }
    }
    None
}

} // verus!
