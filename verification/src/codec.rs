//! Reading and writing documents as YAML text, through `serde_yaml`.

use vstd::prelude::*;
use crate::node::{Node, Tree};
use serde_yaml::value::{Tag, TaggedValue};
use serde_yaml::Value;

verus! {

/// `serde_yaml::Value`, carried from one call of `serde_yaml` to the next
/// without a look inside.
#[verifier::external_type_specification]
#[verifier::external_body]
pub struct ExValue(serde_yaml::Value);

/// The document that a `serde_yaml::Value` holds. A number counts as the text
/// that `serde_yaml::Number` displays for it, a tag as the text that
/// `serde_yaml::value::Tag` displays for it.
pub uninterp spec fn value_tree(value: Value) -> Tree;

/// The document that `serde_yaml` reads from `text`, or `None` where it reads none.
pub uninterp spec fn yaml_decoded(text: Seq<char>) -> Option<Tree>;

/// The `serde_yaml::Value` that holds what the document `doc` holds, or `None`
/// where `doc` holds a number whose text `serde_yaml::Number` does not read.
pub uninterp spec fn tree_value(doc: Tree) -> Option<Value>;

/// The text that `serde_yaml` writes for a value, or `None` where it writes none.
pub uninterp spec fn value_text(value: Value) -> Option<Seq<char>>;

/// The text that `serde_yaml` writes for the document `doc`, or `None` where
/// it writes none: where `doc` holds a number whose text is no number, or
/// where `serde_yaml` reports an error.
pub open spec fn yaml_encoded(doc: Tree) -> Option<Seq<char>> {
    match tree_value(doc) {
        Some(value) => value_text(value),
        None => None,
    }
}

/// What an optional text holds.
pub open spec fn text_view(r: Option<String>) -> Option<Seq<char>> {
    match r {
        Some(s) => Some(s@),
        None => None,
    }
}

/// What an optional node holds.
pub open spec fn node_view(r: Option<Node>) -> Option<Tree> {
    match r {
        Some(n) => Some(n@),
        None => None,
    }
}

/// `serde_yaml::from_str`, reading `text` as a `serde_yaml::Value`; `None`
/// where it reports an error. The result depends on the text alone.
#[verifier::external_body]
fn parse_value(text: &str) -> (r: Option<Value>)
    ensures
        match r {
            Some(value) => yaml_decoded(text@) == Some(value_tree(value)),
            None => yaml_decoded(text@) is None,
        },
{
    serde_yaml::from_str::<Value>(text).ok()
}

/// Takes a `serde_yaml::Value` apart, variant by variant, into a `Node`. Of
/// the result the contract claims what the value type itself keeps: a mapping
/// has no key twice, and a tag is never empty.
#[verifier::external_body]
fn node_of_value(value: &Value) -> (node: Node)
    ensures
        node@ == value_tree(*value),
        node@.well_formed(),
{
    match value {
        Value::Null => Node::Null,
        Value::Bool(b) => Node::Bool(*b),
        Value::Number(n) => Node::Number(n.to_string()),
        Value::String(s) => Node::Text(s.clone()),
        Value::Sequence(items) => Node::Sequence(items.iter().map(node_of_value).collect()),
        Value::Mapping(m) => Node::Mapping(m.iter().map(|(k, v)| (node_of_value(k), node_of_value(v))).collect()),
        Value::Tagged(t) => Node::Tagged(t.tag.to_string(), Box::new(node_of_value(&t.value))),
    }
}

/// Builds the `serde_yaml::Value` that holds what `node` holds, variant by
/// variant, with `serde_yaml::Number::from_str` for a number's text and
/// `serde_yaml::value::Tag::new` for a tag; `None` where a number's text is not
/// read. The result depends on the document alone. An empty tag is left out:
/// `Tag::new` refuses to make one.
#[verifier::external_body]
fn value_of_node(node: &Node) -> (r: Option<Value>)
    requires
        node@.well_formed(),
    ensures
        r == tree_value(node@),
{
    Some(match node {
        Node::Null => Value::Null,
        Node::Bool(b) => Value::Bool(*b),
        Node::Number(text) => Value::Number(text.parse().ok()?),
        Node::Text(s) => Value::String(s.clone()),
        Node::Sequence(items) => Value::Sequence(items.iter().map(value_of_node).collect::<Option<_>>()?),
        Node::Mapping(entries) => Value::Mapping(
            entries.iter().map(|(k, v)| value_of_node(k).zip(value_of_node(v))).collect::<Option<_>>()?,
        ),
        Node::Tagged(tag, inner) => Value::Tagged(
            TaggedValue { tag: Tag::new(tag), value: value_of_node(inner)? }.into(),
        ),
    })
}

/// `serde_yaml::to_string` on a `serde_yaml::Value`; `None` where it reports
/// an error. The result depends on the value alone.
#[verifier::external_body]
fn write_value(value: &Value) -> (r: Option<String>)
    ensures
        text_view(r) == value_text(*value),
{
    serde_yaml::to_string(value).ok()
}

/// Reads `text` as a document.
pub fn decode_yaml(text: &str) -> (r: Option<Node>)
    ensures
        node_view(r) == yaml_decoded(text@),
        r matches Some(n) ==> n@.well_formed(),
{
    match parse_value(text) {
        Some(value) => Some(node_of_value(&value)),
        None => None,
    }
}

/// Writes the document `doc` as text.
pub(crate) fn encode_yaml(doc: &Node) -> (r: Option<String>)
    requires
        doc@.well_formed(),
    ensures
        text_view(r) == yaml_encoded(doc@),
{
    match value_of_node(doc) {
        Some(value) => write_value(&value),
        None => None,
    }
}

} // verus!
