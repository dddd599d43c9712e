use vstd::prelude::*;

use crate::diff::{diff_at, diff_spec};
use crate::node::{
    attrs_view, lemma_nodes_view, nodes_view, Attribute, VNode, VirtualDomNode, VirtualElementNode,
};
use crate::patch::{apply, run_all, PatchError};

verus! {

/// Brings the host subtree at `child_index` below `parent` from `old_node`
/// to `new_node`: diffs the two trees and applies the script to `parent`.
/// Returns the failures that were skipped, or the fatal one that stopped
/// the run.
pub fn update_element(
    parent: &mut VirtualDomNode,
    child_index: usize,
    new_node: &VirtualDomNode,
    old_node: &VirtualDomNode,
) -> (r: Result<Vec<PatchError>, PatchError>)
    ensures
        final(parent)@ == run_all(old(parent)@, diff_spec(old_node@, new_node@, seq![child_index])).host,
        match r {
            Ok(f) => run_all(old(parent)@, diff_spec(old_node@, new_node@, seq![child_index])).aborted
                is None && f@ == run_all(
                old(parent)@,
                diff_spec(old_node@, new_node@, seq![child_index]),
            ).failures,
            Err(e) => run_all(old(parent)@, diff_spec(old_node@, new_node@, seq![child_index])).aborted
                == Some(e),
        },
{
    let mut path: Vec<usize> = Vec::new();
    path.push(child_index);
    assert(path@ =~= seq![child_index]);
    let script = diff_at(old_node, new_node, &path);
    apply(parent, &script)
}

/// A host root element with tag `tag` that holds the placeholder of an
/// empty tree as its only child, ready for a first render.
pub fn mount_point(tag: &str) -> (r: VirtualDomNode)
    ensures
        r@ == (VNode::Element {
            tag: tag@,
            attrs: Seq::empty(),
            children: seq![VNode::Empty],
            key: None,
        }),
{
    let mut children: Vec<VirtualDomNode> = Vec::new();
    children.push(VirtualDomNode::Empty);
    let attributes: Vec<Attribute> = Vec::new();
    proof {
        assert(children@ =~= seq![VirtualDomNode::Empty]);
        lemma_nodes_view(children@);
        assert(nodes_view(children@) =~= seq![VNode::Empty]);
        assert(attrs_view(attributes@) =~= Seq::empty());
    }
    let r = VirtualDomNode::ElementNode(
        VirtualElementNode { node_type: tag.to_owned(), children, attributes, key: None },
    );
    r
}

/// A session: the tree rendered last. The tree it renders stands as the
/// first child of a host root element; an empty tree is a placeholder that
/// occupies that place.
pub struct VirtualDom {
    pub node: VirtualDomNode,
}

impl VirtualDom {
    /// A session whose last rendered tree is empty.
    pub fn new() -> (r: VirtualDom)
        ensures
            r.node@ == VNode::Empty,
    {
        VirtualDom { node: VirtualDomNode::Empty }
    }

    /// Brings the host tree below `root` from the last rendered tree to
    /// `new_node`, then keeps `new_node` as the last rendered tree, whether
    /// or not every operation succeeded.
    pub fn render(&mut self, root: &mut VirtualDomNode, new_node: VirtualDomNode) -> (r: Result<
        Vec<PatchError>,
        PatchError,
    >)
        ensures
            final(self).node@ == new_node@,
            final(root)@ == run_all(old(root)@, diff_spec(old(self).node@, new_node@, seq![0usize])).host,
            match r {
                Ok(f) => run_all(
                    old(root)@,
                    diff_spec(old(self).node@, new_node@, seq![0usize]),
                ).aborted is None && f@ == run_all(
                    old(root)@,
                    diff_spec(old(self).node@, new_node@, seq![0usize]),
                ).failures,
                Err(e) => run_all(
                    old(root)@,
                    diff_spec(old(self).node@, new_node@, seq![0usize]),
                ).aborted == Some(e),
            },
    {
        let r = update_element(root, 0, &new_node, &self.node);
        self.node = new_node;
        r
    }
}

} // verus!
