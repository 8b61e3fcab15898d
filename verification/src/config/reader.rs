//! Reading configuration text as KDL: the nodes of the document, as the
//! library's `Node` values.

use vstd::prelude::*;
use crate::config::parser::{Entry, KdlScalar, Node};

verus! {

#[verifier::external_type_specification]
#[verifier::external_body]
pub struct ExKdlNode(kdl::KdlNode);

/// The nodes of the KDL document `text`, each with its name, its entries
/// (a decimal number only marked as one) and its child nodes; or the
/// message of the KDL reader when `text` is not a KDL document.
pub uninterp spec fn kdl_document(text: Seq<char>) -> Result<Seq<Node>, Seq<char>>;

/// `kdl::KdlDocument::parse`, its nodes converted to `Node` values. The
/// contract claims only that the result is the reader's outcome for this
/// text (a function of the text alone); which texts are KDL documents, and
/// what their nodes are, is left to the reader.
#[verifier::external_body]
pub(crate) fn read_kdl(text: &str) -> (r: Result<Vec<Node>, String>)
    ensures
        match kdl_document(text@) {
            Ok(ns) => r matches Ok(v) && v@ == ns,
            Err(m) => r matches Err(e) && e@ == m,
        },
{
    match kdl::KdlDocument::parse(text) {
        Ok(d) => Ok(d.nodes().iter().map(kdl_node).collect()),
        Err(e) => Err(e.to_string()),
    }
}

/// The conversion of one node of a parsed document for `read_kdl`: its
/// name, its entries and, in turn, its children (`KdlNode::name`,
/// `entries`, `children`).
#[verifier::external_body]
fn kdl_node(n: &kdl::KdlNode) -> (r: Node) {
    Node {
        name: n.name().value().to_string(),
        entries: n.entries().iter().map(|e| Entry {
            name: e.name().map(|i| i.value().to_string()),
            value: match e.value() {
                kdl::KdlValue::String(s) => KdlScalar::String(s.clone()),
                kdl::KdlValue::Integer(i) => KdlScalar::Integer(*i),
                kdl::KdlValue::Float(_) => KdlScalar::Float,
                kdl::KdlValue::Bool(b) => KdlScalar::Bool(*b),
                kdl::KdlValue::Null => KdlScalar::Null,
            },
        }).collect(),
        children: n.children().map(|d| d.nodes().iter().map(kdl_node).collect()),
    }
}

} // verus!
