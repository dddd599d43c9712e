use vstd::prelude::*;

use crate::diff::{all_keyed, all_keyed_exec, is_keyed, node_key, same_key};
use crate::laws::unique_keys;
use crate::node::{attrs_view, lemma_nodes_view, node_view, nodes_view, Attribute, VNode, VirtualDomNode};

verus! {

/// No two attributes share a name.
pub open spec fn names_unique(attrs: Seq<(Seq<char>, Seq<char>)>) -> bool {
    forall|i: int, j: int| 0 <= i < j < attrs.len() ==> (#[trigger] attrs[i]).0 != (#[trigger] attrs[j]).0
}

/// Either every child carries a key, and the keys are distinct, or none does.
pub open spec fn keying_consistent(children: Seq<VNode>) -> bool {
    (all_keyed(children) && unique_keys(children)) || forall|i: int|
        0 <= i < children.len() ==> (#[trigger] node_key(children[i])) is None
}

/// A tree that the diff engine is meant for: every element has a non-empty
/// tag, attributes with distinct names, and consistently keyed children.
pub open spec fn well_formed(n: VNode) -> bool
    decreases n,
{
    match n {
        VNode::Element { tag, attrs, children, .. } => tag.len() > 0 && names_unique(attrs)
            && keying_consistent(children) && forall|i: int|
            0 <= i < children.len() ==> well_formed(#[trigger] children[i]),
        _ => true,
    }
}

fn names_unique_exec(attrs: &Vec<Attribute>) -> (r: bool)
    ensures
        r == names_unique(attrs_view(attrs@)),
{
    let ghost a = attrs_view(attrs@);
    let mut i: usize = 0;
    while i < attrs.len()
        invariant
            i <= attrs.len(),
            a == attrs_view(attrs@),
            forall|p: int, q: int| 0 <= p < q < a.len() && p < i ==> (#[trigger] a[p]).0 != (
            #[trigger] a[q]).0,
        decreases attrs.len() - i,
    {
        let mut j: usize = i + 1;
        while j < attrs.len()
            invariant
                i < j <= attrs.len(),
                a == attrs_view(attrs@),
                forall|p: int, q: int| 0 <= p < q < a.len() && p < i ==> (#[trigger] a[p]).0 != (
                #[trigger] a[q]).0,
                forall|q: int| i < q < j ==> a[i as int].0 != (#[trigger] a[q]).0,
            decreases attrs.len() - j,
        {
            if attrs[i].name == attrs[j].name {
                assert(a[i as int].0 == a[j as int].0);
                return false;
            }
            j = j + 1;
        }
        i = i + 1;
    }
    true
}

fn keys_unique_exec(v: &Vec<VirtualDomNode>) -> (r: bool)
    ensures
        r == unique_keys(nodes_view(v@)),
{
    proof {
        lemma_nodes_view(v@);
    }
    let ghost c = nodes_view(v@);
    let mut i: usize = 0;
    while i < v.len()
        invariant
            i <= v.len(),
            c == nodes_view(v@),
            c.len() == v@.len(),
            forall|k: int| 0 <= k < v@.len() ==> #[trigger] c[k] == node_view(v@[k]),
            forall|p: int, q: int| 0 <= p < q < c.len() && p < i ==> node_key(#[trigger] c[p])
                != node_key(#[trigger] c[q]),
        decreases v.len() - i,
    {
        let mut j: usize = i + 1;
        while j < v.len()
            invariant
                i < j <= v.len(),
                c == nodes_view(v@),
                c.len() == v@.len(),
                forall|k: int| 0 <= k < v@.len() ==> #[trigger] c[k] == node_view(v@[k]),
                forall|p: int, q: int| 0 <= p < q < c.len() && p < i ==> node_key(#[trigger] c[p])
                    != node_key(#[trigger] c[q]),
                forall|q: int| i < q < j ==> node_key(c[i as int]) != node_key(#[trigger] c[q]),
            decreases v.len() - j,
        {
            if same_key(&v[i], &v[j]) {
                assert(node_key(c[i as int]) == node_key(c[j as int]));
                return false;
            }
            j = j + 1;
        }
        i = i + 1;
    }
    true
}

fn none_keyed_exec(v: &Vec<VirtualDomNode>) -> (r: bool)
    ensures
        r == forall|i: int| 0 <= i < v@.len() ==> (#[trigger] node_key(nodes_view(v@)[i])) is None,
{
    proof {
        lemma_nodes_view(v@);
    }
    let mut i: usize = 0;
    while i < v.len()
        invariant
            i <= v.len(),
            nodes_view(v@).len() == v@.len(),
            forall|k: int| 0 <= k < v@.len() ==> #[trigger] nodes_view(v@)[k] == node_view(v@[k]),
            forall|k: int| 0 <= k < i ==> (#[trigger] node_key(nodes_view(v@)[k])) is None,
        decreases v.len() - i,
    {
        if is_keyed(&v[i]) {
            assert(node_key(nodes_view(v@)[i as int]) is Some);
            return false;
        }
        i = i + 1;
    }
    true
}

/// Whether `n` is well formed.
pub fn is_well_formed(n: &VirtualDomNode) -> (r: bool)
    ensures
        r == well_formed(n@),
    decreases n, 1int,
{
    match n {
        VirtualDomNode::ElementNode(e) => {
            proof {
                lemma_nodes_view(e.children@);
            }
            let keyed = all_keyed_exec(&e.children) && keys_unique_exec(&e.children);
            let consistent = keyed || none_keyed_exec(&e.children);
            e.node_type.as_str().unicode_len() > 0 && names_unique_exec(&e.attributes) && consistent
                && children_well_formed(&e.children)
        },
        _ => true,
    }
}

/// Whether every tree of `v` is well formed.
fn children_well_formed(v: &Vec<VirtualDomNode>) -> (r: bool)
    ensures
        r == forall|i: int| 0 <= i < v@.len() ==> well_formed(#[trigger] nodes_view(v@)[i]),
    decreases v, 0int,
{
    proof {
        lemma_nodes_view(v@);
    }
    let mut i: usize = 0;
    while i < v.len()
        invariant
            i <= v.len(),
            nodes_view(v@).len() == v@.len(),
            forall|k: int| 0 <= k < v@.len() ==> #[trigger] nodes_view(v@)[k] == node_view(v@[k]),
            forall|k: int| 0 <= k < i ==> well_formed(#[trigger] nodes_view(v@)[k]),
        decreases v.len() - i,
    {
        if !is_well_formed(&v[i]) {
            assert(!well_formed(nodes_view(v@)[i as int]));
            return false;
        }
        i = i + 1;
    }
    true
}

} // verus!
