use vstd::prelude::*;

use crate::node::{attrs_view, lemma_nodes_view, node_view, nodes_view, Attribute, VNode, VirtualDomNode};
use crate::patch::{script_view, Patch, PatchModel};
use crate::render::copy_node;

verus! {

/// Attribute names whose live value can drift from the virtual one through
/// user interaction; they are re-set on every diff.
pub open spec fn is_volatile(name: Seq<char>) -> bool {
    name == "value"@ || name == "checked"@ || name == "selected"@
}

/// Whether some attribute of `attrs` is named `name`.
pub open spec fn has_name(attrs: Seq<(Seq<char>, Seq<char>)>, name: Seq<char>) -> bool {
    exists|i: int| 0 <= i < attrs.len() && (#[trigger] attrs[i]).0 == name
}

/// Whether the attribute `pair` of the next tree must be (re)set, given the
/// attributes of the previous tree.
pub open spec fn needs_set(prev: Seq<(Seq<char>, Seq<char>)>, pair: (Seq<char>, Seq<char>)) -> bool {
    !prev.contains(pair) || is_volatile(pair.0)
}

/// Removals for the first `n` previous attributes whose names the next
/// attributes lack, in order.
pub open spec fn attr_removals(
    path: Seq<usize>,
    prev: Seq<(Seq<char>, Seq<char>)>,
    next: Seq<(Seq<char>, Seq<char>)>,
    n: int,
) -> Seq<PatchModel>
    decreases n,
{
    if n <= 0 || n > prev.len() {
        Seq::empty()
    } else {
        attr_removals(path, prev, next, n - 1) + if !has_name(next, prev[n - 1].0) {
            seq![PatchModel::RemoveAttribute { path, name: prev[n - 1].0 }]
        } else {
            Seq::empty()
        }
    }
}

/// Settings for the first `n` next attributes that are new, changed or
/// volatile, in order.
pub open spec fn attr_sets(
    path: Seq<usize>,
    prev: Seq<(Seq<char>, Seq<char>)>,
    next: Seq<(Seq<char>, Seq<char>)>,
    n: int,
) -> Seq<PatchModel>
    decreases n,
{
    if n <= 0 || n > next.len() {
        Seq::empty()
    } else {
        attr_sets(path, prev, next, n - 1) + if needs_set(prev, next[n - 1]) {
            seq![PatchModel::SetAttribute { path, name: next[n - 1].0, value: next[n - 1].1 }]
        } else {
            Seq::empty()
        }
    }
}

/// The attribute edits between two elements of the same tag: removals
/// first, then settings.
pub open spec fn attr_ops(
    path: Seq<usize>,
    prev: Seq<(Seq<char>, Seq<char>)>,
    next: Seq<(Seq<char>, Seq<char>)>,
) -> Seq<PatchModel> {
    attr_removals(path, prev, next, prev.len() as int) + attr_sets(path, prev, next, next.len() as int)
}

/// The key of a node; only elements carry one.
pub open spec fn node_key(n: VNode) -> Option<Seq<char>> {
    match n {
        VNode::Element { key, .. } => key,
        _ => None,
    }
}

/// Whether some node of `s` carries the key `k`.
pub open spec fn key_in(s: Seq<VNode>, k: Option<Seq<char>>) -> bool {
    exists|i: int| 0 <= i < s.len() && node_key(#[trigger] s[i]) == k
}

pub open spec fn all_keyed(s: Seq<VNode>) -> bool {
    forall|i: int| 0 <= i < s.len() ==> (#[trigger] node_key(s[i])) is Some
}

/// Children are matched by key when both lists are non-empty and every
/// child in them carries a key; otherwise they are compared by position.
pub open spec fn keyed_mode(prev: Seq<VNode>, next: Seq<VNode>) -> bool {
    prev.len() > 0 && next.len() > 0 && all_keyed(prev) && all_keyed(next)
}

/// Removals of the children at indices `hi - 1` down to `n`.
pub open spec fn tail_removes(path: Seq<usize>, n: int, hi: int) -> Seq<PatchModel>
    decreases hi - n,
{
    if n >= hi || n < 0 {
        Seq::empty()
    } else {
        tail_removes(path, n + 1, hi) + seq![PatchModel::RemoveChild { path, index: n as usize }]
    }
}

/// Insertions of the next children at indices `lo` up to `n - 1`.
pub open spec fn inserts(path: Seq<usize>, next: Seq<VNode>, lo: int, n: int) -> Seq<PatchModel>
    decreases n,
{
    if n <= lo || n > next.len() || n <= 0 {
        Seq::empty()
    } else {
        inserts(path, next, lo, n - 1) + seq![
            PatchModel::InsertChild { path, index: (n - 1) as usize, node: next[n - 1] },
        ]
    }
}

/// Removals of the previous keyed children, from the last down to index
/// `i`, whose key no next child carries.
pub open spec fn keyed_removes(path: Seq<usize>, prev: Seq<VNode>, next: Seq<VNode>, i: int) -> Seq<
    PatchModel,
>
    decreases prev.len() - i,
{
    if i < 0 || i >= prev.len() {
        Seq::empty()
    } else {
        keyed_removes(path, prev, next, i + 1) + if !key_in(next, node_key(prev[i])) {
            seq![PatchModel::RemoveChild { path, index: i as usize }]
        } else {
            Seq::empty()
        }
    }
}

/// The indices, below `n` and in order, of the previous children whose key
/// some next child carries: the host's child list once removals are done.
pub open spec fn surviving(prev: Seq<VNode>, next: Seq<VNode>, n: int) -> Seq<usize>
    decreases n,
{
    if n <= 0 || n > prev.len() {
        Seq::empty()
    } else {
        surviving(prev, next, n - 1) + if key_in(next, node_key(prev[n - 1])) {
            seq![(n - 1) as usize]
        } else {
            Seq::empty()
        }
    }
}

/// The first position at or after `q` in `cur` that holds a previous child
/// with key `k`, or -1.
pub open spec fn find_key(prev: Seq<VNode>, cur: Seq<usize>, k: Option<Seq<char>>, q: int) -> int
    decreases cur.len() - q,
{
    if q < 0 || q >= cur.len() {
        -1
    } else if cur[q] < prev.len() && node_key(prev[cur[q] as int]) == k {
        q
    } else {
        find_key(prev, cur, k, q + 1)
    }
}

/// Positional comparison of the first `n` children.
pub open spec fn common_ops(path: Seq<usize>, prev: Seq<VNode>, next: Seq<VNode>, n: int) -> Seq<
    PatchModel,
>
    decreases prev, n,
{
    if n <= 0 || n > prev.len() || n > next.len() {
        Seq::empty()
    } else {
        common_ops(path, prev, next, n - 1) + diff_spec(
            prev[n - 1],
            next[n - 1],
            path.push((n - 1) as usize),
        )
    }
}

/// Placement of the keyed next children from position `j` on. `cur` is the
/// host's child list at that point, as indices into `prev` (an index out of
/// range stands for a child inserted by this script).
pub open spec fn keyed_place(
    path: Seq<usize>,
    prev: Seq<VNode>,
    next: Seq<VNode>,
    cur: Seq<usize>,
    j: int,
) -> Seq<PatchModel>
    decreases prev, next.len() - j,
{
    if j < 0 || j >= next.len() {
        tail_removes(path, next.len() as int, cur.len() as int)
    } else {
        let p = find_key(prev, cur, node_key(next[j]), j);
        if 0 <= p < cur.len() && cur[p] < prev.len() {
            let i = cur[p] as int;
            (if p != j {
                seq![PatchModel::MoveChild { path, from: p as usize, to: j as usize }]
            } else {
                Seq::empty()
            }) + diff_spec(prev[i], next[j], path.push(j as usize)) + keyed_place(
                path,
                prev,
                next,
                cur.remove(p).insert(j, cur[p]),
                j + 1,
            )
        } else {
            seq![PatchModel::InsertChild { path, index: j as usize, node: next[j] }] + keyed_place(
                path,
                prev,
                next,
                cur.insert(j, prev.len() as usize),
                j + 1,
            )
        }
    }
}

/// The edit script that turns the tree `a`, standing at `path`, into `b`.
pub open spec fn diff_spec(a: VNode, b: VNode, path: Seq<usize>) -> Seq<PatchModel>
    decreases a, 0int,
{
    match a {
        VNode::Empty => match b {
            VNode::Empty => Seq::empty(),
            _ => seq![PatchModel::Replace { path, node: b }],
        },
        VNode::Text { value: x } => match b {
            VNode::Text { value: y } => if x == y {
                Seq::empty()
            } else {
                seq![PatchModel::SetText { path, value: y }]
            },
            _ => seq![PatchModel::Replace { path, node: b }],
        },
        VNode::Element { tag: ta, attrs: aa, children: ca, key: _ } => match b {
            VNode::Element { tag: tb, attrs: ab, children: cb, key: _ } => if ta == tb {
                attr_ops(path, aa, ab) + if keyed_mode(ca, cb) {
                    keyed_removes(path, ca, cb, 0) + keyed_place(
                        path,
                        ca,
                        cb,
                        surviving(ca, cb, ca.len() as int),
                        0,
                    )
                } else {
                    common_ops(
                        path,
                        ca,
                        cb,
                        if ca.len() < cb.len() {
                            ca.len() as int
                        } else {
                            cb.len() as int
                        },
                    ) + if cb.len() > ca.len() {
                        inserts(path, cb, ca.len() as int, cb.len() as int)
                    } else {
                        tail_removes(path, cb.len() as int, ca.len() as int)
                    }
                }
            } else {
                seq![PatchModel::Replace { path, node: b }]
            },
            _ => seq![PatchModel::Replace { path, node: b }],
        },
    }
}

proof fn lemma_script_push(s: Seq<Patch>, p: Patch)
    ensures
        script_view(s.push(p)) == script_view(s).push(p@),
{
    assert(script_view(s.push(p)) =~= script_view(s).push(p@));
}

/// Appends one operation to a script.
fn emit(out: &mut Vec<Patch>, p: Patch)
    ensures
        script_view(final(out)@) == script_view(old(out)@).push(p@),
{
    proof {
        lemma_script_push(out@, p);
    }
    out.push(p);
}

/// Copies a path.
fn copy_path(path: &Vec<usize>) -> (r: Vec<usize>)
    ensures
        r@ == path@,
{
    let mut r: Vec<usize> = Vec::new();
    let mut i: usize = 0;
    while i < path.len()
        invariant
            i <= path.len(),
            r@ == path@.take(i as int),
        decreases path.len() - i,
    {
        r.push(path[i]);
        i = i + 1;
        assert(r@ =~= path@.take(i as int));
    }
    assert(path@.take(path.len() as int) =~= path@);
    r
}

/// Whether `name` is one of the volatile attribute names.
pub fn is_volatile_name(name: &String) -> (r: bool)
    ensures
        r == is_volatile(name@),
{
    let v = "value".to_owned();
    let c = "checked".to_owned();
    let s = "selected".to_owned();
    *name == v || *name == c || *name == s
}

fn has_attr_name(attrs: &Vec<Attribute>, name: &String) -> (r: bool)
    ensures
        r == has_name(attrs_view(attrs@), name@),
{
    let mut i: usize = 0;
    while i < attrs.len()
        invariant
            i <= attrs.len(),
            forall|j: int| 0 <= j < i ==> (#[trigger] attrs_view(attrs@)[j]).0 != name@,
        decreases attrs.len() - i,
    {
        if attrs[i].name == *name {
            assert(attrs_view(attrs@)[i as int].0 == name@);
            return true;
        }
        i = i + 1;
    }
    false
}

fn has_attr_pair(attrs: &Vec<Attribute>, a: &Attribute) -> (r: bool)
    ensures
        r == attrs_view(attrs@).contains(a@),
{
    let mut i: usize = 0;
    while i < attrs.len()
        invariant
            i <= attrs.len(),
            forall|j: int| 0 <= j < i ==> #[trigger] attrs_view(attrs@)[j] != a@,
        decreases attrs.len() - i,
    {
        if attrs[i].name == a.name && attrs[i].value == a.value {
            assert(attrs_view(attrs@)[i as int] == a@);
            return true;
        }
        i = i + 1;
    }
    false
}

/// Appends the attribute edits between two elements of the same tag.
fn diff_attributes(
    prev: &Vec<Attribute>,
    next: &Vec<Attribute>,
    path: &Vec<usize>,
    out: &mut Vec<Patch>,
)
    ensures
        script_view(final(out)@) == script_view(old(out)@) + attr_ops(
            path@,
            attrs_view(prev@),
            attrs_view(next@),
        ),
{
    let ghost pa = attrs_view(prev@);
    let ghost na = attrs_view(next@);
    let ghost base = script_view(out@);
    let mut i: usize = 0;
    while i < prev.len()
        invariant
            i <= prev.len(),
            pa == attrs_view(prev@),
            na == attrs_view(next@),
            script_view(out@) == base + attr_removals(path@, pa, na, i as int),
        decreases prev.len() - i,
    {
        if !has_attr_name(next, &prev[i].name) {
            emit(out, Patch::RemoveAttribute { path: copy_path(path), name: prev[i].name.clone() });
        }
        i = i + 1;
        assert(script_view(out@) =~= base + attr_removals(path@, pa, na, i as int));
    }
    let mut j: usize = 0;
    while j < next.len()
        invariant
            j <= next.len(),
            pa == attrs_view(prev@),
            na == attrs_view(next@),
            script_view(out@) == base + attr_removals(path@, pa, na, pa.len() as int) + attr_sets(
                path@,
                pa,
                na,
                j as int,
            ),
        decreases next.len() - j,
    {
        if !has_attr_pair(prev, &next[j]) || is_volatile_name(&next[j].name) {
            emit(
                out,
                Patch::SetAttribute {
                    path: copy_path(path),
                    name: next[j].name.clone(),
                    value: next[j].value.clone(),
                },
            );
        }
        j = j + 1;
        assert(script_view(out@) =~= base + attr_removals(path@, pa, na, pa.len() as int)
            + attr_sets(path@, pa, na, j as int));
    }
    assert(script_view(out@) =~= base + attr_ops(path@, pa, na));
}

/// Whether two nodes carry the same key (or both none).
pub(crate) fn same_key(a: &VirtualDomNode, b: &VirtualDomNode) -> (r: bool)
    ensures
        r == (node_key(a@) == node_key(b@)),
{
    let ka = match a {
        VirtualDomNode::ElementNode(e) => &e.key,
        _ => {
            return match b {
                VirtualDomNode::ElementNode(f) => f.key.is_none(),
                _ => true,
            };
        },
    };
    let kb = match b {
        VirtualDomNode::ElementNode(f) => &f.key,
        _ => {
            return ka.is_none();
        },
    };
    match (ka, kb) {
        (Some(x), Some(y)) => *x == *y,
        (None, None) => true,
        _ => false,
    }
}

pub(crate) fn is_keyed(n: &VirtualDomNode) -> (r: bool)
    ensures
        r == (node_key(n@) is Some),
{
    match n {
        VirtualDomNode::ElementNode(e) => e.key.is_some(),
        _ => false,
    }
}

pub(crate) fn all_keyed_exec(v: &Vec<VirtualDomNode>) -> (r: bool)
    ensures
        r == all_keyed(nodes_view(v@)),
{
    proof {
        lemma_nodes_view(v@);
    }
    let mut i: usize = 0;
    while i < v.len()
        invariant
            i <= v.len(),
            nodes_view(v@).len() == v@.len(),
            forall|j: int| 0 <= j < v@.len() ==> #[trigger] nodes_view(v@)[j] == node_view(v@[j]),
            forall|j: int| 0 <= j < i ==> (#[trigger] node_key(nodes_view(v@)[j])) is Some,
        decreases v.len() - i,
    {
        if !is_keyed(&v[i]) {
            assert(!(node_key(nodes_view(v@)[i as int]) is Some));
            return false;
        }
        i = i + 1;
    }
    true
}

/// Whether some node of `v` carries the key of `n`.
fn key_in_exec(v: &Vec<VirtualDomNode>, n: &VirtualDomNode) -> (r: bool)
    ensures
        r == key_in(nodes_view(v@), node_key(n@)),
{
    proof {
        lemma_nodes_view(v@);
    }
    let mut i: usize = 0;
    while i < v.len()
        invariant
            i <= v.len(),
            nodes_view(v@).len() == v@.len(),
            forall|j: int| 0 <= j < v@.len() ==> #[trigger] nodes_view(v@)[j] == node_view(v@[j]),
            forall|j: int| 0 <= j < i ==> node_key(#[trigger] nodes_view(v@)[j]) != node_key(n@),
        decreases v.len() - i,
    {
        if same_key(&v[i], n) {
            assert(node_key(nodes_view(v@)[i as int]) == node_key(n@));
            return true;
        }
        i = i + 1;
    }
    false
}

/// Appends the script that turns `prev`, standing at `path`, into `next`.
fn diff_node(
    prev: &VirtualDomNode,
    next: &VirtualDomNode,
    path: &mut Vec<usize>,
    out: &mut Vec<Patch>,
)
    ensures
        final(path)@ == old(path)@,
        script_view(final(out)@) == script_view(old(out)@) + diff_spec(prev@, next@, old(path)@),
    decreases prev, 1int,
{
    let ghost base = script_view(out@);
    match prev {
        VirtualDomNode::Empty => match next {
            VirtualDomNode::Empty => {
                assert(script_view(out@) =~= base + diff_spec(prev@, next@, path@));
            },
            _ => {
                emit(out, Patch::Replace { path: copy_path(path), node: copy_node(next) });
                assert(script_view(out@) =~= base + diff_spec(prev@, next@, path@));
            },
        },
        VirtualDomNode::TextNode(x) => match next {
            VirtualDomNode::TextNode(y) => {
                if !(x.text == y.text) {
                    emit(out, Patch::SetText { path: copy_path(path), value: y.text.clone() });
                }
                assert(script_view(out@) =~= base + diff_spec(prev@, next@, path@));
            },
            _ => {
                emit(out, Patch::Replace { path: copy_path(path), node: copy_node(next) });
                assert(script_view(out@) =~= base + diff_spec(prev@, next@, path@));
            },
        },
        VirtualDomNode::ElementNode(ea) => match next {
            VirtualDomNode::ElementNode(eb) => {
                if ea.node_type == eb.node_type {
                    diff_attributes(&ea.attributes, &eb.attributes, path, out);
                    let keyed = ea.children.len() > 0 && eb.children.len() > 0 && all_keyed_exec(
                        &ea.children,
                    ) && all_keyed_exec(&eb.children);
                    if keyed {
                        diff_keyed(&ea.children, &eb.children, path, out);
                    } else {
                        diff_unkeyed(&ea.children, &eb.children, path, out);
                    }
                    proof {
                        lemma_nodes_view(ea.children@);
                        lemma_nodes_view(eb.children@);
                    }
                    assert(script_view(out@) =~= base + diff_spec(prev@, next@, path@));
                } else {
                    emit(out, Patch::Replace { path: copy_path(path), node: copy_node(next) });
                    assert(script_view(out@) =~= base + diff_spec(prev@, next@, path@));
                }
            },
            _ => {
                emit(out, Patch::Replace { path: copy_path(path), node: copy_node(next) });
                assert(script_view(out@) =~= base + diff_spec(prev@, next@, path@));
            },
        },
    }
}

/// Appends the positional comparison of two child lists.
fn diff_unkeyed(
    prev: &Vec<VirtualDomNode>,
    next: &Vec<VirtualDomNode>,
    path: &mut Vec<usize>,
    out: &mut Vec<Patch>,
)
    ensures
        final(path)@ == old(path)@,
        script_view(final(out)@) == script_view(old(out)@) + common_ops(
            old(path)@,
            nodes_view(prev@),
            nodes_view(next@),
            if prev.len() < next.len() {
                prev.len() as int
            } else {
                next.len() as int
            },
        ) + if next.len() > prev.len() {
            inserts(old(path)@, nodes_view(next@), prev.len() as int, next.len() as int)
        } else {
            tail_removes(old(path)@, next.len() as int, prev.len() as int)
        },
    decreases prev, 0int,
{
    proof {
        lemma_nodes_view(prev@);
        lemma_nodes_view(next@);
    }
    let ghost pc = nodes_view(prev@);
    let ghost nc = nodes_view(next@);
    let ghost base = script_view(out@);
    let ghost path0 = path@;
    let m: usize = if prev.len() < next.len() {
        prev.len()
    } else {
        next.len()
    };
    let mut i: usize = 0;
    while i < m
        invariant
            i <= m,
            m <= prev.len(),
            m <= next.len(),
            path@ == path0,
            pc == nodes_view(prev@),
            nc == nodes_view(next@),
            pc.len() == prev@.len(),
            nc.len() == next@.len(),
            forall|j: int| 0 <= j < prev@.len() ==> #[trigger] pc[j] == node_view(prev@[j]),
            forall|j: int| 0 <= j < next@.len() ==> #[trigger] nc[j] == node_view(next@[j]),
            script_view(out@) == base + common_ops(path0, pc, nc, i as int),
        decreases m - i,
    {
        path.push(i);
        diff_node(&prev[i], &next[i], path, out);
        path.pop();
        assert(path@ =~= path0);
        i = i + 1;
        assert(script_view(out@) =~= base + common_ops(path0, pc, nc, i as int));
    }
    let ghost mid = script_view(out@);
    if next.len() > prev.len() {
        let mut k: usize = prev.len();
        while k < next.len()
            invariant
                prev.len() <= k <= next.len(),
                path@ == path0,
                nc == nodes_view(next@),
                nc.len() == next@.len(),
                forall|j: int| 0 <= j < next@.len() ==> #[trigger] nc[j] == node_view(next@[j]),
                script_view(out@) == mid + inserts(path0, nc, prev.len() as int, k as int),
            decreases next.len() - k,
        {
            emit(out, Patch::InsertChild { path: copy_path(path), index: k, node: copy_node(&next[k]) });
            k = k + 1;
            assert(script_view(out@) =~= mid + inserts(path0, nc, prev.len() as int, k as int));
        }
    } else {
        let mut k: usize = prev.len();
        while k > next.len()
            invariant
                next.len() <= k <= prev.len(),
                path@ == path0,
                script_view(out@) == mid + tail_removes(path0, k as int, prev.len() as int),
            decreases k,
        {
            k = k - 1;
            emit(out, Patch::RemoveChild { path: copy_path(path), index: k });
            assert(script_view(out@) =~= mid + tail_removes(path0, k as int, prev.len() as int));
        }
    }
    assert(script_view(out@) =~= base + common_ops(path0, pc, nc, m as int) + if next.len()
        > prev.len() {
        inserts(path0, nc, prev.len() as int, next.len() as int)
    } else {
        tail_removes(path0, next.len() as int, prev.len() as int)
    });
}

/// Appends the comparison of two keyed child lists: removals of the
/// children whose key is gone, then the placement of each next child.
fn diff_keyed(
    prev: &Vec<VirtualDomNode>,
    next: &Vec<VirtualDomNode>,
    path: &mut Vec<usize>,
    out: &mut Vec<Patch>,
)
    ensures
        final(path)@ == old(path)@,
        script_view(final(out)@) == script_view(old(out)@) + keyed_removes(
            old(path)@,
            nodes_view(prev@),
            nodes_view(next@),
            0,
        ) + keyed_place(
            old(path)@,
            nodes_view(prev@),
            nodes_view(next@),
            surviving(nodes_view(prev@), nodes_view(next@), prev.len() as int),
            0,
        ),
    decreases prev, 0int,
{
    proof {
        lemma_nodes_view(prev@);
        lemma_nodes_view(next@);
    }
    let ghost pc = nodes_view(prev@);
    let ghost nc = nodes_view(next@);
    let ghost base = script_view(out@);
    let ghost path0 = path@;
    let mut i: usize = prev.len();
    while i > 0
        invariant
            i <= prev.len(),
            path@ == path0,
            pc == nodes_view(prev@),
            nc == nodes_view(next@),
            pc.len() == prev@.len(),
            forall|j: int| 0 <= j < prev@.len() ==> #[trigger] pc[j] == node_view(prev@[j]),
            script_view(out@) == base + keyed_removes(path0, pc, nc, i as int),
        decreases i,
    {
        i = i - 1;
        if !key_in_exec(next, &prev[i]) {
            emit(out, Patch::RemoveChild { path: copy_path(path), index: i });
        }
        assert(script_view(out@) =~= base + keyed_removes(path0, pc, nc, i as int));
    }
    let ghost total = script_view(out@) + keyed_place(
        path0,
        pc,
        nc,
        surviving(pc, nc, pc.len() as int),
        0,
    );
    let mut cur: Vec<usize> = Vec::new();
    let mut i: usize = 0;
    while i < prev.len()
        invariant
            i <= prev.len(),
            pc == nodes_view(prev@),
            nc == nodes_view(next@),
            pc.len() == prev@.len(),
            forall|j: int| 0 <= j < prev@.len() ==> #[trigger] pc[j] == node_view(prev@[j]),
            cur@ == surviving(pc, nc, i as int),
        decreases prev.len() - i,
    {
        if key_in_exec(next, &prev[i]) {
            cur.push(i);
        }
        i = i + 1;
        assert(cur@ =~= surviving(pc, nc, i as int));
    }
    let mut j: usize = 0;
    while j < next.len()
        invariant
            j <= next.len(),
            j <= cur.len(),
            path@ == path0,
            pc == nodes_view(prev@),
            nc == nodes_view(next@),
            pc.len() == prev@.len(),
            nc.len() == next@.len(),
            forall|k: int| 0 <= k < prev@.len() ==> #[trigger] pc[k] == node_view(prev@[k]),
            forall|k: int| 0 <= k < next@.len() ==> #[trigger] nc[k] == node_view(next@[k]),
            script_view(out@) + keyed_place(path0, pc, nc, cur@, j as int) == total,
        decreases next.len() - j,
    {
        let ghost before = script_view(out@);
        let ghost cur0 = cur@;
        let ghost k = node_key(nc[j as int]);
        let mut p: usize = j;
        let mut found = false;
        while p < cur.len() && !found
            invariant
                j <= p <= cur.len(),
                j < next.len(),
                cur@ == cur0,
                pc == nodes_view(prev@),
                pc.len() == prev@.len(),
                nc == nodes_view(next@),
                nc.len() == next@.len(),
                forall|q: int| 0 <= q < prev@.len() ==> #[trigger] pc[q] == node_view(prev@[q]),
                forall|q: int| 0 <= q < next@.len() ==> #[trigger] nc[q] == node_view(next@[q]),
                k == node_key(nc[j as int]),
                find_key(pc, cur0, k, j as int) == find_key(pc, cur0, k, p as int),
                found ==> p < cur.len() && cur@[p as int] < prev.len() && node_key(
                    pc[cur@[p as int] as int],
                ) == k,
            decreases cur.len() - p, if found {
                0int
            } else {
                1int
            },
        {
            if cur[p] < prev.len() && same_key(&prev[cur[p]], &next[j]) {
                found = true;
            } else {
                p = p + 1;
            }
        }
        if found {
            let ix = cur[p];
            assert(find_key(pc, cur0, k, j as int) == p as int);
            if p != j {
                emit(out, Patch::MoveChild { path: copy_path(path), from: p, to: j });
            }
            path.push(j);
            diff_node(&prev[ix], &next[j], path, out);
            path.pop();
            assert(path@ =~= path0);
            let v = cur.remove(p);
            cur.insert(j, v);
            assert(cur@ =~= cur0.remove(p as int).insert(j as int, cur0[p as int]));
            assert(script_view(out@) =~= before + ((if p != j {
                seq![PatchModel::MoveChild { path: path0, from: p, to: j }]
            } else {
                Seq::empty()
            }) + diff_spec(pc[ix as int], nc[j as int], path0.push(j))));
        } else {
            assert(find_key(pc, cur0, k, j as int) == -1);
            emit(out, Patch::InsertChild { path: copy_path(path), index: j, node: copy_node(&next[j]) });
            cur.insert(j, prev.len());
        }
        j = j + 1;
    }
    let ghost mid = script_view(out@);
    assert(keyed_place(path0, pc, nc, cur@, j as int) == tail_removes(
        path0,
        nc.len() as int,
        cur@.len() as int,
    ));
    let mut k: usize = cur.len();
    while k > next.len()
        invariant
            next.len() <= k <= cur.len(),
            path@ == path0,
            script_view(out@) == mid + tail_removes(path0, k as int, cur@.len() as int),
        decreases k,
    {
        k = k - 1;
        emit(out, Patch::RemoveChild { path: copy_path(path), index: k });
        assert(script_view(out@) =~= mid + tail_removes(path0, k as int, cur@.len() as int));
    }
    assert(script_view(out@) =~= mid + tail_removes(path0, nc.len() as int, cur@.len() as int));
}

/// The edit script that turns the tree `prev` into the tree `next`. Paths in
/// it start at `prev`'s root.
pub fn diff(prev: &VirtualDomNode, next: &VirtualDomNode) -> (r: Vec<Patch>)
    ensures
        script_view(r@) == diff_spec(prev@, next@, Seq::empty()),
{
    let mut out: Vec<Patch> = Vec::new();
    let mut path: Vec<usize> = Vec::new();
    diff_node(prev, next, &mut path, &mut out);
    assert(script_view(Seq::<Patch>::empty()) =~= Seq::<PatchModel>::empty());
    assert(path@ =~= Seq::<usize>::empty());
    out
}

/// The edit script that turns the tree `prev`, standing at `path`, into
/// `next`. Paths in it start with `path`.
pub fn diff_at(prev: &VirtualDomNode, next: &VirtualDomNode, path: &Vec<usize>) -> (r: Vec<Patch>)
    ensures
        script_view(r@) == diff_spec(prev@, next@, path@),
{
    let mut out: Vec<Patch> = Vec::new();
    let mut p = copy_path(path);
    diff_node(prev, next, &mut p, &mut out);
    assert(script_view(Seq::<Patch>::empty()) =~= Seq::<PatchModel>::empty());
    out
}

} // verus!
