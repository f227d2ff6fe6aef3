use vstd::prelude::*;

verus! {

/// One node of a parsed XML document, as the external parser reports it:
/// a tag name (empty for non-element nodes such as text and comments),
/// the attributes in document order, the direct text content if there is
/// one, and the child nodes in document order.
#[derive(Debug)]
pub struct XmlNode {
    pub name: String,
    pub attributes: Vec<(String, String)>,
    pub text: Option<String>,
    pub children: Vec<XmlNode>,
}

/// The mathematical model of an `XmlNode`.
pub struct XmlNodeV {
    pub name: Seq<char>,
    pub attributes: Seq<(Seq<char>, Seq<char>)>,
    pub text: Option<Seq<char>>,
    pub children: Seq<XmlNodeV>,
}

impl XmlNode {
    pub open spec fn deep(self) -> XmlNodeV
        decreases self,
    {
        XmlNodeV {
            name: self.name@,
            attributes: Seq::new(
                self.attributes@.len(),
                |i: int| (self.attributes@[i].0@, self.attributes@[i].1@),
            ),
            text: match self.text {
                Some(t) => Some(t@),
                None => None,
            },
            children: nodes_deep(self.children@),
        }
    }
}

impl View for XmlNode {
    type V = XmlNodeV;

    open spec fn view(&self) -> XmlNodeV {
        self.deep()
    }
}

/// The model of a sequence of nodes, node by node.
pub open spec fn nodes_deep(nodes: Seq<XmlNode>) -> Seq<XmlNodeV>
    decreases nodes,
{
    if nodes.len() == 0 {
        Seq::empty()
    } else {
        nodes_deep(nodes.drop_last()).push(nodes[nodes.len() - 1].deep())
    }
}

/// `nodes_deep` is the pointwise model of its argument.
pub proof fn lemma_nodes_deep(nodes: Seq<XmlNode>)
    ensures
        nodes_deep(nodes).len() == nodes.len(),
        forall|i: int| 0 <= i < nodes.len() ==> nodes_deep(nodes)[i] == nodes[i].deep(),
    decreases nodes.len(),
{
    if nodes.len() > 0 {
        lemma_nodes_deep(nodes.drop_last());
    }
}

} // verus!
