use vstd::prelude::*;
use crate::model::{Node, NodeV};
use yaml_rust2::{Yaml, YamlEmitter, YamlLoader};

verus! {

#[verifier::external_type_specification]
#[verifier::external_body]
pub struct ExYaml(Yaml);

/// A parse failure, carrying the scanner's message.
#[derive(Debug)]
pub struct ParseError {
    pub message: String,
}

/// An emit failure, carrying the formatter's message.
#[derive(Debug)]
pub struct EmitError {
    pub message: String,
}

/// The text the emitter writes for one document tree: the document-start
/// line and then the document's text.  It depends on the tree alone.
pub uninterp spec fn yaml_text_of(n: NodeV) -> Seq<u8>;

/// What the parser makes of a file's text: the documents it holds, as
/// values of the model, or nothing when the text is not well formed.  It
/// depends on the text alone: the parser walks the characters, and the
/// mapping entries come out in insertion order.
pub uninterp spec fn parse_result_of(text: Seq<char>) -> Option<Seq<NodeV>>;

/// Relies on the `yaml_rust2::Yaml` representation: one mapping entry's
/// key and value moved into the model; a non-string key yields nothing.
#[verifier::external_body]
fn entry_of_yaml(k: &Yaml, v: &Yaml) -> Option<(Vec<u8>, Node)> {
    match k {
        Yaml::String(s) => Some((s.clone().into_bytes(), node_of_yaml(v))),
        _ => None,
    }
}

/// Relies on the `yaml_rust2::Yaml` representation: each variant is moved
/// into the corresponding variant of the crate's own model, scalar text as
/// bytes and a real number as its source text.  An alias, a bad value, or
/// a mapping with a non-string key becomes `Malformed`.
#[verifier::external_body]
fn node_of_yaml(y: &Yaml) -> Node {
    match y {
        Yaml::Null => Node::Null,
        Yaml::Boolean(b) => Node::Bool(*b),
        Yaml::Integer(i) => Node::Int(*i),
        Yaml::Real(s) => Node::Float(s.clone().into_bytes()),
        Yaml::String(s) => Node::Str(s.clone().into_bytes()),
        Yaml::Array(a) => Node::Sequence(a.iter().map(node_of_yaml).collect()),
        Yaml::Hash(h) => h.iter().map(|(k, v)| entry_of_yaml(k, v)).collect::<Option<Vec<_>>>()
            .map_or(Node::Malformed, Node::Mapping),
        _ => Node::Malformed,
    }
}

/// Relies on the `yaml_rust2::Yaml` representation: one mapping entry of
/// the model moved back into the parser's tree.
#[verifier::external_body]
fn yaml_of_entry(k: &Vec<u8>, v: &Node) -> (Yaml, Yaml) {
    (Yaml::String(String::from_utf8_lossy(k).into_owned()), yaml_of_node(v))
}

/// Relies on the `yaml_rust2::Yaml` representation: the inverse move, from
/// the crate's model back into the parser's tree.  `Malformed` becomes the
/// parser's bad-value marker.
#[verifier::external_body]
fn yaml_of_node(n: &Node) -> Yaml {
    match n {
        Node::Null => Yaml::Null,
        Node::Bool(b) => Yaml::Boolean(*b),
        Node::Int(i) => Yaml::Integer(*i),
        Node::Float(t) => Yaml::Real(String::from_utf8_lossy(t).into_owned()),
        Node::Str(t) => Yaml::String(String::from_utf8_lossy(t).into_owned()),
        Node::Sequence(v) => Yaml::Array(v.iter().map(yaml_of_node).collect()),
        Node::Mapping(e) => Yaml::Hash(e.iter().map(|(k, v)| yaml_of_entry(k, v)).collect()),
        Node::Malformed => Yaml::BadValue,
    }
}

/// Relies on `yaml_rust2::YamlLoader::load_from_str`: well-formed text
/// parses into the documents it holds, each moved into the crate's model;
/// malformed text is refused with the scanner's message.  The loader is a
/// function of the text alone, so success and result are exactly
/// `parse_result_of` the text.
#[verifier::external_body]
pub fn parse_documents(text: &str) -> (r: Result<Vec<Node>, ParseError>)
    ensures
        r is Ok <==> parse_result_of(text@) is Some,
        r matches Ok(d) ==> parse_result_of(text@) == Some(crate::model::seq_view(d@)),
{
    match YamlLoader::load_from_str(text) {
        Ok(docs) => Ok(docs.iter().map(node_of_yaml).collect()),
        Err(e) => Err(ParseError { message: format!("{e}") }),
    }
}

/// Relies on `yaml_rust2::YamlEmitter::dump`: writes one document's text,
/// a function of the tree alone.  Every failure path in the emitter is a
/// formatting error of its writer, and writing into a `String` never
/// fails, so the call always succeeds.
#[verifier::external_body]
pub fn emit_document(n: &Node) -> (r: Result<Vec<u8>, EmitError>)
    ensures
        r is Ok,
        r matches Ok(b) ==> b@ == yaml_text_of(n@),
{
    let mut out = String::new();
    match YamlEmitter::new(&mut out).dump(&yaml_of_node(n)) {
        Ok(()) => Ok(out.into_bytes()),
        Err(e) => Err(EmitError { message: format!("{e}") }),
    }
}

} // verus!
