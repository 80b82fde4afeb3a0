//! The document model: a parsed tree of typed nodes, and the trusted bridge
//! to the external YAML parser that produces it.
//!
//! The flattening engine never touches the parser's own node type; the bridge
//! maps every parsed document onto [`Node`] first, so that all validation and
//! flattening logic runs on plain, fully visible values.

use vstd::prelude::*;

verus! {

/// A mapping key as found in the source document.
pub enum KeyNode {
    /// A string-typed scalar key, the only kind the flattening accepts.
    Str(String),
    /// Any non-string key (number, boolean, null, ...); rejected by the flattening.
    Other,
}

/// One `(key, value)` entry of a mapping node, in document order.
pub struct Entry {
    /// The entry's key node.
    pub key: KeyNode,
    /// The entry's value node.
    pub value: Node,
}

/// A node of the parsed document tree.
pub enum Node {
    /// A mapping; entries keep the document's order.
    Mapping(Vec<Entry>),
    /// A string scalar, the only kind of leaf the flattening accepts.
    Str(String),
    /// Any other value (number, boolean, null, sequence, ...); rejected as a leaf.
    Other,
}

#[verifier::external_type_specification]
#[verifier::external_body]
pub struct ExYaml(yaml_rust::Yaml);

/// The outcome of parsing a text: the parsed documents mapped onto [`Node`],
/// or the scanner's diagnostic message. Parsing is a pure function of the
/// text, so the outcome depends on the text alone.
pub uninterp spec fn parsed_docs(text: Seq<char>) -> Result<Seq<Node>, Seq<char>>;

/// Relies on yaml_rust::Yaml::as_str: it returns the text exactly when the
/// key is the string variant. Maps a parsed key onto the library's key model.
#[verifier::external_body]
fn yaml_to_key(y: &yaml_rust::Yaml) -> KeyNode {
    match y.as_str() {
        Some(s) => KeyNode::Str(s.to_string()),
        None => KeyNode::Other,
    }
}

/// Relies on yaml_rust::Yaml: maps each variant of a parsed node onto the
/// library's document model, mapping entries one for one in document order.
#[verifier::external_body]
fn yaml_to_node(y: &yaml_rust::Yaml) -> Node {
    match y {
        yaml_rust::Yaml::String(s) => Node::Str(s.clone()),
        yaml_rust::Yaml::Hash(h) => Node::Mapping(
            h.iter().map(|(k, v)| Entry { key: yaml_to_key(k), value: yaml_to_node(v) }).collect(),
        ),
        _ => Node::Other,
    }
}

/// Relies on yaml_rust::YamlLoader::load_from_str: it parses the text into a
/// sequence of documents, or fails with a scan error, whose display message
/// (diagnostic with line and column) is handed back; either outcome is a
/// function of the text alone.
#[verifier::external_body]
pub(crate) fn parse_documents(text: &str) -> (r: Result<Vec<Node>, String>)
    ensures
        (r is Ok) == (parsed_docs(text@) is Ok),
        r matches Ok(docs) ==> docs@ == parsed_docs(text@)->Ok_0,
        r matches Err(m) ==> m@ == parsed_docs(text@)->Err_0,
{
    match yaml_rust::YamlLoader::load_from_str(text) {
        Ok(docs) => Ok(docs.iter().map(yaml_to_node).collect()),
        Err(e) => Err(format!("{}", e)),
    }
}

} // verus!
