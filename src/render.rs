use vstd::prelude::*;

use crate::node::{
    attrs_view, nodes_view, Attribute, VNode, VirtualDomNode, VirtualElementNode, VirtualTextNode,
};

verus! {

/// Builds an unkeyed element node from a tag, its children and its attributes.
pub fn h(node_type: &str, children: Vec<VirtualDomNode>, attr: Vec<Attribute>) -> (r: VirtualDomNode)
    ensures
        r@ == (VNode::Element {
            tag: node_type@,
            attrs: attrs_view(attr@),
            children: nodes_view(children@),
            key: None,
        }),
{
    VirtualDomNode::ElementNode(
        VirtualElementNode {
            node_type: node_type.to_owned(),
            children,
            attributes: attr,
            key: None,
        },
    )
}

/// Builds an element node that carries `key`, which identifies it among its
/// keyed siblings.
pub fn h_keyed(key: &str, node_type: &str, children: Vec<VirtualDomNode>, attr: Vec<Attribute>) -> (r:
    VirtualDomNode)
    ensures
        r@ == (VNode::Element {
            tag: node_type@,
            attrs: attrs_view(attr@),
            children: nodes_view(children@),
            key: Some(key@),
        }),
{
    VirtualDomNode::ElementNode(
        VirtualElementNode {
            node_type: node_type.to_owned(),
            children,
            attributes: attr,
            key: Some(key.to_owned()),
        },
    )
}

/// Builds an attribute from its name and value.
pub fn attr(attribute: &str, value: &str) -> (r: Attribute)
    ensures
        r.name@ == attribute@,
        r.value@ == value@,
{
    Attribute { name: attribute.to_owned(), value: value.to_owned() }
}

/// Builds a text node.
pub fn t(text: &str) -> (r: VirtualDomNode)
    ensures
        r@ == (VNode::Text { value: text@ }),
{
    VirtualDomNode::TextNode(VirtualTextNode { text: text.to_owned() })
}

/// Copies a list of attributes.
pub fn copy_attributes(a: &Vec<Attribute>) -> (r: Vec<Attribute>)
    ensures
        attrs_view(r@) == attrs_view(a@),
{
    let mut r: Vec<Attribute> = Vec::new();
    let mut i: usize = 0;
    while i < a.len()
        invariant
            i <= a.len(),
            r@.len() == i,
            forall|j: int| 0 <= j < i ==> #[trigger] r@[j]@ == a@[j]@,
        decreases a.len() - i,
    {
        let x = Attribute { name: a[i].name.clone(), value: a[i].value.clone() };
        r.push(x);
        i = i + 1;
    }
    assert(attrs_view(r@) =~= attrs_view(a@));
    r
}

/// Copies a whole tree; the copy has the same model as the original.
pub fn copy_node(n: &VirtualDomNode) -> (r: VirtualDomNode)
    ensures
        r@ == n@,
    decreases n, 1int,
{
    match n {
        VirtualDomNode::Empty => VirtualDomNode::Empty,
        VirtualDomNode::TextNode(tn) => VirtualDomNode::TextNode(
            VirtualTextNode { text: tn.text.clone() },
        ),
        VirtualDomNode::ElementNode(e) => {
            let key = match &e.key {
                Some(k) => Some(k.clone()),
                None => None,
            };
            let children = copy_nodes(&e.children);
            VirtualDomNode::ElementNode(
                VirtualElementNode {
                    node_type: e.node_type.clone(),
                    children,
                    attributes: copy_attributes(&e.attributes),
                    key,
                },
            )
        },
    }
}

/// Copies a list of trees.
pub fn copy_nodes(v: &Vec<VirtualDomNode>) -> (r: Vec<VirtualDomNode>)
    ensures
        nodes_view(r@) == nodes_view(v@),
    decreases v, 0int,
{
    let mut r: Vec<VirtualDomNode> = Vec::new();
    let mut i: usize = 0;
    while i < v.len()
        invariant
            i <= v.len(),
            nodes_view(r@) == nodes_view(v@.take(i as int)),
        decreases v.len() - i,
    {
        let c = copy_node(&v[i]);
        let ghost r0 = r@;
        r.push(c);
        i = i + 1;
        assert(v@.take(i as int).drop_last() == v@.take(i - 1));
        assert(r@.drop_last() == r0);
    }
    assert(v@.take(v.len() as int) == v@);
    r
}

} // verus!
