use vstd::prelude::*;

use crate::node::{attrs_view, lemma_nodes_view, nodes_view, Attribute, VNode, VirtualDomNode};
use crate::render::copy_node;

verus! {

/// The model of one edit operation. `path` addresses a node by the child
/// indices that lead to it from the root.
pub enum PatchModel {
    Replace { path: Seq<usize>, node: VNode },
    SetAttribute { path: Seq<usize>, name: Seq<char>, value: Seq<char> },
    RemoveAttribute { path: Seq<usize>, name: Seq<char> },
    SetText { path: Seq<usize>, value: Seq<char> },
    InsertChild { path: Seq<usize>, index: usize, node: VNode },
    RemoveChild { path: Seq<usize>, index: usize },
    MoveChild { path: Seq<usize>, from: usize, to: usize },
}

/// One edit operation of an edit script.
#[derive(Debug, PartialEq, Eq)]
pub enum Patch {
    Replace { path: Vec<usize>, node: VirtualDomNode },
    SetAttribute { path: Vec<usize>, name: String, value: String },
    RemoveAttribute { path: Vec<usize>, name: String },
    SetText { path: Vec<usize>, value: String },
    InsertChild { path: Vec<usize>, index: usize, node: VirtualDomNode },
    RemoveChild { path: Vec<usize>, index: usize },
    MoveChild { path: Vec<usize>, from: usize, to: usize },
}

impl View for Patch {
    type V = PatchModel;

    open spec fn view(&self) -> PatchModel {
        match self {
            Patch::Replace { path, node } => PatchModel::Replace { path: path@, node: node@ },
            Patch::SetAttribute { path, name, value } => PatchModel::SetAttribute {
                path: path@,
                name: name@,
                value: value@,
            },
            Patch::RemoveAttribute { path, name } => PatchModel::RemoveAttribute {
                path: path@,
                name: name@,
            },
            Patch::SetText { path, value } => PatchModel::SetText { path: path@, value: value@ },
            Patch::InsertChild { path, index, node } => PatchModel::InsertChild {
                path: path@,
                index: *index,
                node: node@,
            },
            Patch::RemoveChild { path, index } => PatchModel::RemoveChild {
                path: path@,
                index: *index,
            },
            Patch::MoveChild { path, from, to } => PatchModel::MoveChild {
                path: path@,
                from: *from,
                to: *to,
            },
        }
    }
}

/// The models of the operations of a script, in order.
pub open spec fn script_view(s: Seq<Patch>) -> Seq<PatchModel> {
    s.map_values(|p: Patch| p@)
}

/// Why an edit operation could not be applied to the host tree.
#[derive(PartialEq, Eq, Structural, Debug, Clone, Copy)]
pub enum PatchError {
    /// The path leads to no node.
    PathNotFound,
    /// A child index lies outside the child list.
    IndexOutOfRange,
    /// A child operation addressed a node without a child list.
    NoChildren,
    /// An attribute operation addressed a node that is not an element.
    NotAnElement,
    /// A text operation addressed a node that is not a text.
    NotText,
}

/// Errors after which the host tree and the virtual tree no longer
/// correspond, so the rest of the script is abandoned.
pub open spec fn is_fatal(e: PatchError) -> bool {
    e is PathNotFound || e is IndexOutOfRange || e is NoChildren
}

/// The path of an operation.
pub open spec fn op_path(op: PatchModel) -> Seq<usize> {
    match op {
        PatchModel::Replace { path, .. } => path,
        PatchModel::SetAttribute { path, .. } => path,
        PatchModel::RemoveAttribute { path, .. } => path,
        PatchModel::SetText { path, .. } => path,
        PatchModel::InsertChild { path, .. } => path,
        PatchModel::RemoveChild { path, .. } => path,
        PatchModel::MoveChild { path, .. } => path,
    }
}

/// The first index at or after `i` of an attribute named `name`, or -1.
pub open spec fn attr_index(attrs: Seq<(Seq<char>, Seq<char>)>, name: Seq<char>, i: int) -> int
    decreases attrs.len() - i,
{
    if i < 0 || i >= attrs.len() {
        -1
    } else if attrs[i].0 == name {
        i
    } else {
        attr_index(attrs, name, i + 1)
    }
}

/// The attributes after setting `name` to `value`: an existing attribute of
/// that name keeps its place, a new one goes last.
pub open spec fn set_attr(attrs: Seq<(Seq<char>, Seq<char>)>, name: Seq<char>, value: Seq<char>) -> Seq<
    (Seq<char>, Seq<char>),
> {
    let k = attr_index(attrs, name, 0);
    if 0 <= k < attrs.len() {
        attrs.update(k, (name, value))
    } else {
        attrs.push((name, value))
    }
}

/// The first `n` attributes, without those named `name`.
pub open spec fn without_name(attrs: Seq<(Seq<char>, Seq<char>)>, name: Seq<char>, n: int) -> Seq<
    (Seq<char>, Seq<char>),
>
    decreases n,
{
    if n <= 0 || n > attrs.len() {
        Seq::empty()
    } else {
        without_name(attrs, name, n - 1) + if attrs[n - 1].0 != name {
            seq![attrs[n - 1]]
        } else {
            Seq::empty()
        }
    }
}

/// One operation applied to the node that its path addresses.
pub open spec fn apply_local(n: VNode, op: PatchModel) -> Result<VNode, PatchError> {
    match op {
        PatchModel::Replace { node, .. } => Ok(node),
        PatchModel::SetAttribute { name, value, .. } => match n {
            VNode::Element { tag, attrs, children, key } => Ok(
                VNode::Element { tag, attrs: set_attr(attrs, name, value), children, key },
            ),
            _ => Err(PatchError::NotAnElement),
        },
        PatchModel::RemoveAttribute { name, .. } => match n {
            VNode::Element { tag, attrs, children, key } => Ok(
                VNode::Element {
                    tag,
                    attrs: without_name(attrs, name, attrs.len() as int),
                    children,
                    key,
                },
            ),
            _ => Err(PatchError::NotAnElement),
        },
        PatchModel::SetText { value, .. } => match n {
            VNode::Text { .. } => Ok(VNode::Text { value }),
            _ => Err(PatchError::NotText),
        },
        PatchModel::InsertChild { index, node, .. } => match n {
            VNode::Element { tag, attrs, children, key } => if index <= children.len() {
                Ok(VNode::Element { tag, attrs, children: children.insert(index as int, node), key })
            } else {
                Err(PatchError::IndexOutOfRange)
            },
            _ => Err(PatchError::NoChildren),
        },
        PatchModel::RemoveChild { index, .. } => match n {
            VNode::Element { tag, attrs, children, key } => if index < children.len() {
                Ok(VNode::Element { tag, attrs, children: children.remove(index as int), key })
            } else {
                Err(PatchError::IndexOutOfRange)
            },
            _ => Err(PatchError::NoChildren),
        },
        PatchModel::MoveChild { from, to, .. } => match n {
            VNode::Element { tag, attrs, children, key } => if from < children.len() && to
                < children.len() {
                Ok(
                    VNode::Element {
                        tag,
                        attrs,
                        children: children.remove(from as int).insert(to as int, children[from as int]),
                        key,
                    },
                )
            } else {
                Err(PatchError::IndexOutOfRange)
            },
            _ => Err(PatchError::NoChildren),
        },
    }
}

/// `op` applied to the node that `path` addresses below `n`.
pub open spec fn apply_at(n: VNode, path: Seq<usize>, op: PatchModel) -> Result<VNode, PatchError>
    decreases path.len(),
{
    if path.len() == 0 {
        apply_local(n, op)
    } else {
        match n {
            VNode::Element { tag, attrs, children, key } => if path[0] < children.len() {
                match apply_at(children[path[0] as int], path.drop_first(), op) {
                    Ok(c) => Ok(
                        VNode::Element { tag, attrs, children: children.update(path[0] as int, c), key },
                    ),
                    Err(e) => Err(e),
                }
            } else {
                Err(PatchError::PathNotFound)
            },
            _ => Err(PatchError::PathNotFound),
        }
    }
}

/// One operation applied to the tree `n`.
pub open spec fn apply_spec(n: VNode, op: PatchModel) -> Result<VNode, PatchError> {
    apply_at(n, op_path(op), op)
}

/// The state of a host tree while a script runs.
pub struct ScriptRun {
    pub host: VNode,
    pub failures: Seq<PatchError>,
    pub aborted: Option<PatchError>,
}

/// The first `n` operations of `ops` applied in order to `host`: a failure
/// that is not fatal is recorded and skipped, a fatal one stops the run.
pub open spec fn run_script(host: VNode, ops: Seq<PatchModel>, n: int) -> ScriptRun
    decreases n,
{
    if n <= 0 || n > ops.len() {
        ScriptRun { host, failures: Seq::empty(), aborted: None }
    } else {
        let before = run_script(host, ops, n - 1);
        if before.aborted is Some {
            before
        } else {
            match apply_spec(before.host, ops[n - 1]) {
                Ok(h) => ScriptRun { host: h, failures: before.failures, aborted: None },
                Err(e) => if is_fatal(e) {
                    ScriptRun { host: before.host, failures: before.failures, aborted: Some(e) }
                } else {
                    ScriptRun { host: before.host, failures: before.failures.push(e), aborted: None }
                },
            }
        }
    }
}

/// The outcome of running a whole script on `host`.
pub open spec fn run_all(host: VNode, ops: Seq<PatchModel>) -> ScriptRun {
    run_script(host, ops, ops.len() as int)
}

/// Sets the attribute `name` to `value`.
fn set_attribute_in(attrs: &mut Vec<Attribute>, name: &String, value: &String)
    ensures
        attrs_view(final(attrs)@) == set_attr(attrs_view(old(attrs)@), name@, value@),
{
    let ghost a0 = attrs_view(attrs@);
    let mut i: usize = 0;
    let mut found = false;
    while i < attrs.len() && !found
        invariant
            i <= attrs.len(),
            a0 == attrs_view(attrs@),
            attr_index(a0, name@, 0) == attr_index(a0, name@, i as int),
            found ==> i < attrs.len() && a0[i as int].0 == name@,
        decreases attrs.len() - i, if found {
            0int
        } else {
            1int
        },
    {
        if attrs[i].name == *name {
            found = true;
        } else {
            i = i + 1;
        }
    }
    if found {
        assert(attr_index(a0, name@, i as int) == i as int);
        attrs.remove(i);
        attrs.insert(i, Attribute { name: name.clone(), value: value.clone() });
        assert(attrs_view(attrs@) =~= a0.update(i as int, (name@, value@)));
    } else {
        attrs.push(Attribute { name: name.clone(), value: value.clone() });
        assert(attrs_view(attrs@) =~= a0.push((name@, value@)));
    }
}

/// Removes every attribute named `name`.
fn remove_attribute_in(attrs: &mut Vec<Attribute>, name: &String)
    ensures
        attrs_view(final(attrs)@) == without_name(
            attrs_view(old(attrs)@),
            name@,
            old(attrs)@.len() as int,
        ),
{
    let ghost a0 = attrs_view(attrs@);
    let mut r: Vec<Attribute> = Vec::new();
    let mut i: usize = 0;
    while i < attrs.len()
        invariant
            i <= attrs.len(),
            a0 == attrs_view(attrs@),
            attrs_view(r@) == without_name(a0, name@, i as int),
        decreases attrs.len() - i,
    {
        if !(attrs[i].name == *name) {
            r.push(Attribute { name: attrs[i].name.clone(), value: attrs[i].value.clone() });
        }
        i = i + 1;
        assert(attrs_view(r@) =~= without_name(a0, name@, i as int));
    }
    *attrs = r;
}

/// Applies one operation to the node that its path addresses.
fn apply_local_exec(node: &mut VirtualDomNode, op: &Patch) -> (r: Result<(), PatchError>)
    ensures
        match apply_local(old(node)@, op@) {
            Ok(n) => r is Ok && final(node)@ == n,
            Err(e) => r == Err::<(), PatchError>(e) && final(node)@ == old(node)@,
        },
{
    match op {
        Patch::Replace { node: n, .. } => {
            *node = copy_node(n);
            Ok(())
        },
        Patch::SetAttribute { name, value, .. } => match node {
            VirtualDomNode::ElementNode(e) => {
                set_attribute_in(&mut e.attributes, name, value);
                Ok(())
            },
            _ => Err(PatchError::NotAnElement),
        },
        Patch::RemoveAttribute { name, .. } => match node {
            VirtualDomNode::ElementNode(e) => {
                remove_attribute_in(&mut e.attributes, name);
                Ok(())
            },
            _ => Err(PatchError::NotAnElement),
        },
        Patch::SetText { value, .. } => match node {
            VirtualDomNode::TextNode(t) => {
                t.text = value.clone();
                Ok(())
            },
            _ => Err(PatchError::NotText),
        },
        Patch::InsertChild { index, node: n, .. } => match node {
            VirtualDomNode::ElementNode(e) => {
                proof {
                    lemma_nodes_view(e.children@);
                }
                if *index <= e.children.len() {
                    let c = copy_node(n);
                    let ghost c0 = e.children@;
                    e.children.insert(*index, c);
                    proof {
                        lemma_nodes_view(c0);
                        lemma_nodes_view(e.children@);
                    }
                    assert(nodes_view(e.children@) =~= nodes_view(c0).insert(*index as int, n@));
                    Ok(())
                } else {
                    Err(PatchError::IndexOutOfRange)
                }
            },
            _ => Err(PatchError::NoChildren),
        },
        Patch::RemoveChild { index, .. } => match node {
            VirtualDomNode::ElementNode(e) => {
                proof {
                    lemma_nodes_view(e.children@);
                }
                if *index < e.children.len() {
                    let ghost c0 = e.children@;
                    e.children.remove(*index);
                    proof {
                        lemma_nodes_view(c0);
                        lemma_nodes_view(e.children@);
                    }
                    assert(nodes_view(e.children@) =~= nodes_view(c0).remove(*index as int));
                    Ok(())
                } else {
                    Err(PatchError::IndexOutOfRange)
                }
            },
            _ => Err(PatchError::NoChildren),
        },
        Patch::MoveChild { from, to, .. } => match node {
            VirtualDomNode::ElementNode(e) => {
                proof {
                    lemma_nodes_view(e.children@);
                }
                if *from < e.children.len() && *to < e.children.len() {
                    let ghost c0 = e.children@;
                    let c = e.children.remove(*from);
                    e.children.insert(*to, c);
                    proof {
                        lemma_nodes_view(c0);
                        lemma_nodes_view(e.children@);
                    }
                    assert(nodes_view(e.children@) =~= nodes_view(c0).remove(*from as int).insert(
                        *to as int,
                        nodes_view(c0)[*from as int],
                    ));
                    Ok(())
                } else {
                    Err(PatchError::IndexOutOfRange)
                }
            },
            _ => Err(PatchError::NoChildren),
        },
    }
}

/// The path of an operation.
fn path_of(op: &Patch) -> (r: &Vec<usize>)
    ensures
        r@ == op_path(op@),
{
    match op {
        Patch::Replace { path, .. } => path,
        Patch::SetAttribute { path, .. } => path,
        Patch::RemoveAttribute { path, .. } => path,
        Patch::SetText { path, .. } => path,
        Patch::InsertChild { path, .. } => path,
        Patch::RemoveChild { path, .. } => path,
        Patch::MoveChild { path, .. } => path,
    }
}

/// Applies `op` to the node that the rest of `path`, from `depth` on,
/// addresses below `node`.
fn apply_at_exec(node: &mut VirtualDomNode, path: &Vec<usize>, depth: usize, op: &Patch) -> (r:
    Result<(), PatchError>)
    requires
        depth <= path.len(),
    ensures
        match apply_at(old(node)@, path@.subrange(depth as int, path.len() as int), op@) {
            Ok(n) => r is Ok && final(node)@ == n,
            Err(e) => r == Err::<(), PatchError>(e) && final(node)@ == old(node)@,
        },
    decreases path.len() - depth,
{
    let ghost rest = path@.subrange(depth as int, path.len() as int);
    if depth == path.len() {
        assert(rest.len() == 0);
        return apply_local_exec(node, op);
    }
    assert(rest.drop_first() =~= path@.subrange(depth + 1, path.len() as int));
    let idx = path[depth];
    assert(rest[0] == idx);
    match node {
        VirtualDomNode::ElementNode(e) => {
            proof {
                    lemma_nodes_view(e.children@);
                }
                if idx < e.children.len() {
                let ghost c0 = e.children@;
                proof {
                    lemma_nodes_view(c0);
                }
                let mut child = e.children.remove(idx);
                let r = apply_at_exec(&mut child, path, depth + 1, op);
                e.children.insert(idx, child);
                proof {
                    lemma_nodes_view(e.children@);
                    if r is Ok {
                        assert(nodes_view(e.children@) =~= nodes_view(c0).update(
                            idx as int,
                            child@,
                        ));
                    } else {
                        assert(nodes_view(e.children@) =~= nodes_view(c0));
                    }
                }
                r
            } else {
                Err(PatchError::PathNotFound)
            }
        },
        _ => Err(PatchError::PathNotFound),
    }
}

/// Applies one operation to the host tree `root`. On an error the tree is
/// left as it was.
pub fn apply_patch(root: &mut VirtualDomNode, op: &Patch) -> (r: Result<(), PatchError>)
    ensures
        match apply_spec(old(root)@, op@) {
            Ok(n) => r is Ok && final(root)@ == n,
            Err(e) => r == Err::<(), PatchError>(e) && final(root)@ == old(root)@,
        },
{
    let path = path_of(op);
    assert(path@.subrange(0, path.len() as int) =~= path@);
    apply_at_exec(root, path, 0, op)
}

/// Applies a script, in order, to the host tree `root`. Failures that are
/// not fatal are skipped and returned; a fatal one stops the run and is
/// returned as the error.
pub fn apply(root: &mut VirtualDomNode, script: &Vec<Patch>) -> (r: Result<Vec<PatchError>, PatchError>)
    ensures
        final(root)@ == run_all(old(root)@, script_view(script@)).host,
        match r {
            Ok(f) => run_all(old(root)@, script_view(script@)).aborted is None && f@ == run_all(
                old(root)@,
                script_view(script@),
            ).failures,
            Err(e) => run_all(old(root)@, script_view(script@)).aborted == Some(e),
        },
{
    let ghost h0 = root@;
    let ghost ops = script_view(script@);
    let mut failures: Vec<PatchError> = Vec::new();
    let mut aborted: Option<PatchError> = None;
    let mut i: usize = 0;
    while i < script.len() && aborted.is_none()
        invariant
            i <= script.len(),
            ops == script_view(script@),
            ops.len() == script@.len(),
            aborted is None ==> root@ == run_script(h0, ops, i as int).host,
            aborted is None ==> failures@ == run_script(h0, ops, i as int).failures,
            aborted is None ==> run_script(h0, ops, i as int).aborted is None,
            aborted is Some ==> 0 < i <= ops.len() && run_script(h0, ops, i as int).aborted
                == aborted && root@ == run_script(h0, ops, i as int).host,
        decreases script.len() - i, if aborted is None {
            1int
        } else {
            0int
        },
    {
        assert(ops[i as int] == script@[i as int]@);
        match apply_patch(root, &script[i]) {
            Ok(()) => {},
            Err(e) => {
                if e == PatchError::PathNotFound || e == PatchError::IndexOutOfRange || e
                    == PatchError::NoChildren {
                    aborted = Some(e);
                } else {
                    failures.push(e);
                }
            },
        }
        i = i + 1;
    }
    match aborted {
        Some(e) => {
            proof {
                lemma_run_stays_aborted(h0, ops, i as int, ops.len() as int);
            }
            Err(e)
        },
        None => Ok(failures),
    }
}

/// Once a run is aborted it stays so, on the same host tree.
proof fn lemma_run_stays_aborted(host: VNode, ops: Seq<PatchModel>, n: int, m: int)
    requires
        0 < n <= m <= ops.len(),
        run_script(host, ops, n).aborted is Some,
    ensures
        run_script(host, ops, m) == run_script(host, ops, n),
    decreases m - n,
{
    if m > n {
        lemma_run_stays_aborted(host, ops, n, m - 1);
    }
}

} // verus!
