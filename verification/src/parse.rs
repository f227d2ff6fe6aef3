use vstd::prelude::*;

use crate::xml::{XmlNode, XmlNodeV};

verus! {

/// A failure to parse the XML input, carrying the parser's diagnostic.
#[derive(Debug)]
pub struct ParseError {
    pub message: String,
}

/// The element tree that parsing a given piece of XML text yields: the model
/// of the document's root element for well-formed input, or nothing for input
/// the parser rejects. Parsing is a pure function of the text alone.
pub uninterp spec fn xml_doc(text: Seq<char>) -> Option<XmlNodeV>;

#[verifier::external_type_specification]
#[verifier::external_body]
pub struct ExNode<'a, 'input: 'a>(roxmltree::Node<'a, 'input>);

/// Relies on `roxmltree::Document::parse`: it builds the document tree for
/// well-formed XML with a single root element and reports an error for any
/// other input, deterministically in the text alone; `Document::root_element`
/// returns that root element.
#[verifier::external_body]
pub(crate) fn parse_xml(text: &str) -> (r: Result<XmlNode, ParseError>)
    ensures
        match r {
            Ok(node) => xml_doc(text@) == Some(node@),
            Err(_) => xml_doc(text@) is None,
        },
{
    match roxmltree::Document::parse(text) {
        Ok(doc) => Ok(node_to_tree(&doc.root_element())),
        Err(e) => Err(ParseError { message: e.to_string() }),
    }
}

/// Relies on `roxmltree::Node`: `tag_name().name()` is the element's name and
/// is empty for non-element nodes; `attributes()` yields the attributes in
/// document order; `text()` is the element's direct text, present when its
/// first child is a text node; `children()` yields all child nodes in
/// document order.
#[verifier::external_body]
fn node_to_tree(node: &roxmltree::Node) -> XmlNode {
    let mut attributes = Vec::new();
    for a in node.attributes() {
        attributes.push((a.name().to_string(), a.value().to_string()));
    }
    let mut children = Vec::new();
    for c in node.children() {
        children.push(node_to_tree(&c));
    }
    XmlNode {
        name: node.tag_name().name().to_string(),
        attributes,
        text: node.text().map(|t| t.to_string()),
        children,
    }
}

} // verus!
