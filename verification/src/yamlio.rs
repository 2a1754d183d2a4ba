//! The boundary to the structured-text (de)serializer. Parsing text into
//! document trees and emitting trees back to text are the work of the
//! `yaml_rust` crate; the library carries the results under the names
//! `parsed_yaml` and `emitted_yaml` and proves everything else about them.

use vstd::prelude::*;

use crate::errors::McError;
use crate::merge::{wf_check_nodes, wf_nodes_v};
use crate::node::{nodes_view, Node, NodeV};

verus! {

#[verifier::external_type_specification]
#[verifier::external_body]
pub struct ExYaml(yaml_rust::Yaml);

#[verifier::external_type_specification]
#[verifier::external_body]
pub struct ExScanError(yaml_rust::ScanError);

#[verifier::external_type_specification]
#[verifier::external_body]
pub struct ExEmitError(yaml_rust::EmitError);

/// The documents a text parses to, in the library's tree form, or `None`
/// where the text does not scan or holds a construct the pipeline does not
/// carry. Parsing is a pure function of the text.
pub uninterp spec fn parsed_yaml(s: Seq<char>) -> Option<Seq<NodeV>>;

/// The text a document emits to. Emission is a pure function of the tree.
pub uninterp spec fn emitted_yaml(d: NodeV) -> Seq<char>;

/// Conversion arm of `load_yaml_docs`: rebuilds one `yaml_rust` node as the
/// library's own tree. `None` marks a construct the pipeline does not carry:
/// an alias, an invalid node, or a mapping key that is not a scalar. Carries
/// no contract of its own; `load_yaml_docs` states the combined result.
#[verifier::external_body]
fn yaml_to_node(y: &yaml_rust::Yaml) -> Option<Node> {
    match y {
        yaml_rust::Yaml::Null => Some(Node::Null),
        yaml_rust::Yaml::Boolean(b) => Some(Node::Bool(*b)),
        yaml_rust::Yaml::Integer(i) => Some(Node::Int(*i)),
        yaml_rust::Yaml::Real(s) => Some(Node::Real(s.clone())),
        yaml_rust::Yaml::String(s) => Some(Node::Str(s.clone())),
        yaml_rust::Yaml::Array(_) => yaml_arr_to_node(y),
        yaml_rust::Yaml::Hash(_) => yaml_hash_to_node(y),
        _ => None,
    }
}

/// Array arm of `yaml_to_node`: every element converted, in order.
#[verifier::external_body]
fn yaml_arr_to_node(y: &yaml_rust::Yaml) -> Option<Node> {
    let v = match y {
        yaml_rust::Yaml::Array(v) => v,
        _ => return None,
    };
    let mut out: Vec<Node> = Vec::new();
    for e in v {
        out.push(yaml_to_node(e)?);
    }
    Some(Node::Arr(out))
}

/// Mapping arm of `yaml_to_node`: every entry converted, in insertion order.
#[verifier::external_body]
fn yaml_hash_to_node(y: &yaml_rust::Yaml) -> Option<Node> {
    let h = match y {
        yaml_rust::Yaml::Hash(h) => h,
        _ => return None,
    };
    let mut out: Vec<(String, Node)> = Vec::new();
    for (k, v) in h {
        out.push((yaml_key_to_string(k)?, yaml_to_node(v)?));
    }
    Some(Node::Dict(out))
}

/// Key arm of `yaml_to_node`: a scalar mapping key in its textual form.
#[verifier::external_body]
fn yaml_key_to_string(k: &yaml_rust::Yaml) -> Option<String> {
    match k {
        yaml_rust::Yaml::String(s) => Some(s.clone()),
        yaml_rust::Yaml::Integer(i) => Some(i.to_string()),
        yaml_rust::Yaml::Boolean(b) => Some(b.to_string()),
        yaml_rust::Yaml::Real(s) => Some(s.clone()),
        _ => None,
    }
}

/// Relies on `yaml_rust::YamlLoader::load_from_str`: the documents of the
/// text, in parse order, each mapping's entries in insertion order under the
/// textual form of their scalar keys. `Ok(None)` marks a document the
/// pipeline does not carry; the scan error is handed back as it is.
#[verifier::external_body]
fn load_yaml_docs(text: &str) -> (r: Result<Option<Vec<Node>>, yaml_rust::ScanError>)
    ensures
        match r {
            Ok(Some(docs)) => parsed_yaml(text@) == Some(nodes_view(docs@)),
            Ok(None) => parsed_yaml(text@) is None,
            Err(_) => parsed_yaml(text@) is None,
        },
{
    match yaml_rust::YamlLoader::load_from_str(text) {
        Ok(ys) => {
            let mut out: Vec<Node> = Vec::new();
            for y in &ys {
                match yaml_to_node(y) {
                    Some(n) => out.push(n),
                    None => return Ok(None),
                }
            }
            Ok(Some(out))
        },
        Err(e) => Err(e),
    }
}

/// Conversion arm of `dump_yaml`: rebuilds the library's tree as a
/// `yaml_rust` node. Carries no contract of its own; `dump_yaml` states the
/// combined result.
#[verifier::external_body]
fn node_to_yaml(n: &Node) -> yaml_rust::Yaml {
    match n {
        Node::Null => yaml_rust::Yaml::Null,
        Node::Bool(b) => yaml_rust::Yaml::Boolean(*b),
        Node::Int(i) => yaml_rust::Yaml::Integer(*i),
        Node::Real(s) => yaml_rust::Yaml::Real(s.clone()),
        Node::Str(s) => yaml_rust::Yaml::String(s.clone()),
        Node::Arr(v) => arr_to_yaml(v),
        Node::Dict(es) => dict_to_yaml(es),
    }
}

/// Array arm of `node_to_yaml`.
#[verifier::external_body]
fn arr_to_yaml(v: &Vec<Node>) -> yaml_rust::Yaml {
    yaml_rust::Yaml::Array(v.iter().map(node_to_yaml).collect())
}

/// Map arm of `node_to_yaml`: entries in order, keys as strings.
#[verifier::external_body]
fn dict_to_yaml(es: &Vec<(String, Node)>) -> yaml_rust::Yaml {
    let mut h = yaml_rust::yaml::Hash::new();
    for (k, v) in es {
        h.insert(yaml_rust::Yaml::String(k.clone()), node_to_yaml(v));
    }
    yaml_rust::Yaml::Hash(h)
}

/// Relies on `yaml_rust::YamlEmitter::dump`: the text a document serializes
/// to, a pure function of the document. Emission into a `String` cannot
/// fail: the emitter's only constructed error is the formatter's
/// (`BadHashmapKey` is never built), and `fmt::Write` for `String` is
/// infallible.
#[verifier::external_body]
fn dump_yaml(n: &Node) -> (r: Result<String, yaml_rust::EmitError>)
    ensures
        r is Ok,
        r matches Ok(s) ==> s@ == emitted_yaml(n@),
{
    let mut out = String::new();
    let mut emitter = yaml_rust::YamlEmitter::new(&mut out);
    match emitter.dump(&node_to_yaml(n)) {
        Ok(()) => Ok(out),
        Err(e) => Err(e),
    }
}

/// The well-formed documents of a text: what it parses to, provided every
/// map of every document has pairwise-distinct keys (two scalar keys that
/// spell the same text, `1` and `"1"`, would collide).
pub open spec fn parsed_wf(t: Seq<char>) -> Option<Seq<NodeV>> {
    match parsed_yaml(t) {
        Some(docs) => if wf_nodes_v(docs) {
            Some(docs)
        } else {
            None
        },
        None => None,
    }
}

/// Parse a structured-config text into its documents, refusing any whose
/// maps do not have distinct keys.
pub fn parse_yaml_docs(text: &str) -> (r: Result<Vec<Node>, McError>)
    ensures
        match r {
            Ok(docs) => parsed_wf(text@) == Some(nodes_view(docs@)) && wf_nodes_v(
                nodes_view(docs@),
            ),
            Err(e) => parsed_wf(text@) is None && e is Parse,
        },
{
    let docs = match load_yaml_docs(text) {
        Ok(Some(docs)) => docs,
        Ok(None) => {
            return Err(McError::Parse("unsupported structured-text construct".to_owned()));
        },
        Err(_) => {
            return Err(McError::Parse("malformed structured text".to_owned()));
        },
    };
    if !wf_check_nodes(&docs) {
        return Err(McError::Parse("duplicate mapping keys".to_owned()));
    }
    Ok(docs)
}

/// Serialize one document back to text.
pub fn emit_yaml(n: &Node) -> (r: String)
    ensures
        r@ == emitted_yaml(n@),
{
    match dump_yaml(n) {
        Ok(s) => s,
        // dump_yaml promises success; this arm cannot be reached
        Err(_) => String::new(),
    }
}

} // verus!
