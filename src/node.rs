use vstd::prelude::*;

verus! {

/// The mathematical model of a virtual node: an empty placeholder, an element
/// or a piece of text.
pub enum VNode {
    Empty,
    Element {
        tag: Seq<char>,
        attrs: Seq<(Seq<char>, Seq<char>)>,
        children: Seq<VNode>,
        key: Option<Seq<char>>,
    },
    Text { value: Seq<char> },
}

/// An attribute on a DOM node, such as `id="my-thing"`.
#[derive(Debug, Clone, PartialEq, Eq)]
pub struct Attribute {
    pub name: String,
    pub value: String,
}

impl View for Attribute {
    type V = (Seq<char>, Seq<char>);

    open spec fn view(&self) -> (Seq<char>, Seq<char>) {
        (self.name@, self.value@)
    }
}

impl Attribute {
    /// This attribute's name, such as `"id"` in `<div id="my-thing" />`.
    pub fn name(&self) -> (r: String)
        ensures
            r@ == self.name@,
    {
        self.name.clone()
    }

    /// This attribute's value, such as `"my-thing"` in `<div id="my-thing" />`.
    pub fn value(&self) -> (r: String)
        ensures
            r@ == self.value@,
    {
        self.value.clone()
    }
}

/// An html element: its tag, its attributes in order, its children in order,
/// and the key that identifies it among keyed siblings.
#[derive(Debug, PartialEq, Eq)]
pub struct VirtualElementNode {
    pub node_type: String,
    pub children: Vec<VirtualDomNode>,
    pub attributes: Vec<Attribute>,
    pub key: Option<String>,
}

/// Text that is mixed in with elements.
#[derive(Debug, Clone, PartialEq, Eq)]
pub struct VirtualTextNode {
    pub text: String,
}

/// A virtual node: an element, a text, or nothing.
#[derive(Debug, PartialEq, Eq)]
pub enum VirtualDomNode {
    Empty,
    ElementNode(VirtualElementNode),
    TextNode(VirtualTextNode),
}

pub open spec fn attrs_view(a: Seq<Attribute>) -> Seq<(Seq<char>, Seq<char>)> {
    a.map_values(|x: Attribute| x@)
}

pub open spec fn key_view(k: Option<String>) -> Option<Seq<char>> {
    match k {
        Some(s) => Some(s@),
        None => None,
    }
}

/// The models of a sequence of nodes, element by element.
pub open spec fn nodes_view(s: Seq<VirtualDomNode>) -> Seq<VNode>
    decreases s, 1int,
{
    if s.len() == 0 {
        Seq::empty()
    } else {
        nodes_view(s.drop_last()).push(node_view(s.last()))
    }
}

/// The model of one node.
pub open spec fn node_view(n: VirtualDomNode) -> VNode
    decreases n, 0int,
{
    match n {
        VirtualDomNode::Empty => VNode::Empty,
        VirtualDomNode::TextNode(t) => VNode::Text { value: t.text@ },
        VirtualDomNode::ElementNode(e) => VNode::Element {
            tag: e.node_type@,
            attrs: attrs_view(e.attributes@),
            children: nodes_view(e.children@),
            key: key_view(e.key),
        },
    }
}

impl View for VirtualDomNode {
    type V = VNode;

    open spec fn view(&self) -> VNode {
        node_view(*self)
    }
}

pub proof fn lemma_nodes_view(s: Seq<VirtualDomNode>)
    ensures
        nodes_view(s).len() == s.len(),
        forall|i: int| 0 <= i < s.len() ==> #[trigger] nodes_view(s)[i] == node_view(s[i]),
    decreases s.len(),
{
    if s.len() > 0 {
        lemma_nodes_view(s.drop_last());
    }
}

/// Every child list in the tree has a length that fits in `usize`, as in
/// every tree held in memory.
pub open spec fn sized(n: VNode) -> bool
    decreases n,
{
    match n {
        VNode::Element { children, .. } => children.len() <= usize::MAX && forall|i: int|
            0 <= i < children.len() ==> sized(#[trigger] children[i]),
        _ => true,
    }
}

/// The model of a tree held in memory is sized.
pub proof fn lemma_view_sized(n: VirtualDomNode)
    ensures
        sized(n@),
    decreases n,
{
    match n {
        VirtualDomNode::ElementNode(e) => {
            lemma_nodes_view(e.children@);
            assert(e.children@.len() == e.children.len());
            assert(e.children.len() <= usize::MAX);
            assert forall|i: int| 0 <= i < e.children@.len() implies sized(
                #[trigger] nodes_view(e.children@)[i],
            ) by {
                assert(decreases_to!(e.children => e.children@[i]));
                lemma_view_sized(e.children@[i]);
            }
        },
        _ => {},
    }
}

} // verus!
