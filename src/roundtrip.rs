use vstd::prelude::*;

use crate::diff::{
    attr_ops, attr_removals, attr_sets, common_ops, diff_spec, find_key, has_name, inserts, key_in,
    keyed_mode, keyed_place, keyed_removes, needs_set, node_key, surviving, tail_removes,
};
use crate::minimality::{
    all_attr_ops_at, all_child_ops_at, child_part, is_attr_op_at, is_child_op_at, lemma_attr_kind,
    lemma_inserts_kind, lemma_keyed_removes_kind, lemma_tail_removes_kind,
};
use crate::node::VNode;
use crate::validate::names_unique;
use crate::patch::{
    PatchError, apply_at, apply_local, apply_spec, attr_index, op_path, run_all, run_script, set_attr,
    without_name, PatchModel, ScriptRun,
};

verus! {

/// The node that `path` addresses below `h`, if any.
pub open spec fn node_at(h: VNode, path: Seq<usize>) -> Option<VNode>
    decreases path.len(),
{
    if path.len() == 0 {
        Some(h)
    } else {
        match h {
            VNode::Element { children, .. } => if path[0] < children.len() {
                node_at(children[path[0] as int], path.drop_first())
            } else {
                None
            },
            _ => None,
        }
    }
}

/// `h` with the node that `path` addresses replaced by `x`.
pub open spec fn replace_at(h: VNode, path: Seq<usize>, x: VNode) -> VNode
    decreases path.len(),
{
    if path.len() == 0 {
        x
    } else {
        match h {
            VNode::Element { tag, attrs, children, key } => if path[0] < children.len() {
                VNode::Element {
                    tag,
                    attrs,
                    children: children.update(
                        path[0] as int,
                        replace_at(children[path[0] as int], path.drop_first(), x),
                    ),
                    key,
                }
            } else {
                h
            },
            _ => h,
        }
    }
}

/// A script applied in order with every operation succeeding, or `None`.
pub open spec fn run_clean(h: VNode, s: Seq<PatchModel>) -> Option<VNode>
    decreases s.len(),
{
    if s.len() == 0 {
        Some(h)
    } else {
        match apply_spec(h, s[0]) {
            Ok(h2) => run_clean(h2, s.drop_first()),
            Err(_) => None,
        }
    }
}

/// A script applied in order to one node, whatever its paths say.
pub open spec fn run_local(n: VNode, s: Seq<PatchModel>) -> Option<VNode>
    decreases s.len(),
{
    if s.len() == 0 {
        Some(n)
    } else {
        match apply_local(n, s[0]) {
            Ok(n2) => run_local(n2, s.drop_first()),
            Err(_) => None,
        }
    }
}

proof fn lemma_apply_lift(h: VNode, q: Seq<usize>, op: PatchModel, n: VNode, y: VNode)
    requires
        node_at(h, q) == Some(n),
        apply_local(n, op) == Ok::<VNode, PatchError>(y),
    ensures
        apply_at(h, q, op) == Ok::<VNode, PatchError>(replace_at(h, q, y)),
    decreases q.len(),
{
    if q.len() > 0 {
        match h {
            VNode::Element { children, .. } => {
                lemma_apply_lift(children[q[0] as int], q.drop_first(), op, n, y);
            },
            _ => {},
        }
    }
}

proof fn lemma_replace_twice(h: VNode, q: Seq<usize>, x: VNode, z: VNode)
    requires
        node_at(h, q) is Some,
    ensures
        node_at(replace_at(h, q, x), q) == Some(x),
        replace_at(replace_at(h, q, x), q, z) == replace_at(h, q, z),
    decreases q.len(),
{
    if q.len() > 0 {
        match h {
            VNode::Element { tag, attrs, children, key } => {
                let i = q[0] as int;
                lemma_replace_twice(children[i], q.drop_first(), x, z);
                let c1 = children.update(i, replace_at(children[i], q.drop_first(), x));
                assert(c1.update(i, replace_at(c1[i], q.drop_first(), z)) =~= children.update(
                    i,
                    replace_at(children[i], q.drop_first(), z),
                ));
            },
            _ => {},
        }
    }
}

/// The element at `q` with its child `j` replaced by `x`.
pub open spec fn with_child(n: VNode, j: int, x: VNode) -> VNode {
    VNode::Element {
        tag: n->tag,
        attrs: n->attrs,
        children: n->children.update(j, x),
        key: n->key,
    }
}

proof fn lemma_child_at(h: VNode, q: Seq<usize>, n: VNode, j: usize, x: VNode)
    requires
        node_at(h, q) == Some(n),
        n is Element,
        j < n->children.len(),
    ensures
        node_at(h, q.push(j)) == Some(n->children[j as int]),
        replace_at(h, q.push(j), x) == replace_at(h, q, with_child(n, j as int, x)),
    decreases q.len(),
{
    if q.len() > 0 {
        assert(q.push(j).drop_first() =~= q.drop_first().push(j));
        assert(q.push(j)[0] == q[0]);
        match h {
            VNode::Element { children, .. } => {
                lemma_child_at(children[q[0] as int], q.drop_first(), n, j, x);
            },
            _ => {},
        }
    } else {
        let e = Seq::<usize>::empty();
        assert(q.push(j).drop_first() =~= e);
        assert(q.push(j)[0] == j);
        assert(h == n);
        assert(node_at(n->children[j as int], e) == Some(n->children[j as int]));
        assert(replace_at(n->children[j as int], e, x) == x);
        assert(node_at(h, q.push(j)) == node_at(n->children[j as int], e));
        assert(replace_at(h, q, with_child(n, j as int, x)) == with_child(n, j as int, x));
    }
}

proof fn lemma_run_clean_add(h: VNode, s1: Seq<PatchModel>, s2: Seq<PatchModel>)
    ensures
        run_clean(h, s1 + s2) == match run_clean(h, s1) {
            Some(x) => run_clean(x, s2),
            None => None,
        },
    decreases s1.len(),
{
    if s1.len() == 0 {
        assert(s1 + s2 =~= s2);
    } else {
        assert((s1 + s2).drop_first() =~= s1.drop_first() + s2);
        assert((s1 + s2)[0] == s1[0]);
        match apply_spec(h, s1[0]) {
            Ok(h2) => lemma_run_clean_add(h2, s1.drop_first(), s2),
            Err(_) => {},
        }
    }
}

proof fn lemma_run_clean_script(h: VNode, s: Seq<PatchModel>, n: int)
    requires
        0 <= n <= s.len(),
        run_clean(h, s.take(n)) is Some,
    ensures
        run_script(h, s, n) == (ScriptRun {
            host: run_clean(h, s.take(n))->0,
            failures: Seq::empty(),
            aborted: None,
        }),
    decreases n,
{
    if n > 0 {
        assert(s.take(n) =~= s.take(n - 1) + seq![s[n - 1]]);
        lemma_run_clean_add(h, s.take(n - 1), seq![s[n - 1]]);
        lemma_run_clean_script(h, s, n - 1);
        assert(seq![s[n - 1]].drop_first() =~= Seq::<PatchModel>::empty());
        assert(seq![s[n - 1]][0] == s[n - 1]);
        let x = run_clean(h, s.take(n - 1))->0;
        assert(apply_spec(x, s[n - 1]) is Ok);
        let h2 = apply_spec(x, s[n - 1])->Ok_0;
        assert(run_clean(h2, Seq::<PatchModel>::empty()) == Some(h2));
        assert(run_clean(x, seq![s[n - 1]]) == Some(h2));
    } else {
        assert(s.take(0) =~= Seq::<PatchModel>::empty());
    }
}

/// A script that runs clean runs without failures in the applier's terms.
proof fn lemma_run_clean_all(h: VNode, s: Seq<PatchModel>)
    requires
        run_clean(h, s) is Some,
    ensures
        run_all(h, s) == (ScriptRun { host: run_clean(h, s)->0, failures: Seq::empty(), aborted: None }),
{
    assert(s.take(s.len() as int) =~= s);
    lemma_run_clean_script(h, s, s.len() as int);
}

/// Operations that all address `q` act on the node there alone.
proof fn lemma_run_local_lift(h: VNode, q: Seq<usize>, s: Seq<PatchModel>, n: VNode)
    requires
        node_at(h, q) == Some(n),
        forall|k: int| 0 <= k < s.len() ==> op_path(#[trigger] s[k]) == q,
        run_local(n, s) is Some,
    ensures
        run_clean(h, s) == Some(replace_at(h, q, run_local(n, s)->0)),
    decreases s.len(),
{
    if s.len() == 0 {
        lemma_replace_twice(h, q, n, n);
        assert(replace_at(h, q, n) == h) by {
            lemma_replace_self(h, q, n);
        }
    } else {
        let n2 = apply_local(n, s[0])->Ok_0;
        lemma_apply_lift(h, q, s[0], n, n2);
        let h2 = replace_at(h, q, n2);
        lemma_replace_twice(h, q, n2, n2);
        lemma_run_local_lift(h2, q, s.drop_first(), n2);
        lemma_replace_twice(h, q, n2, run_local(n2, s.drop_first())->0);
    }
}

proof fn lemma_replace_self(h: VNode, q: Seq<usize>, n: VNode)
    requires
        node_at(h, q) == Some(n),
    ensures
        replace_at(h, q, n) == h,
    decreases q.len(),
{
    if q.len() > 0 {
        match h {
            VNode::Element { tag, attrs, children, key } => {
                lemma_replace_self(children[q[0] as int], q.drop_first(), n);
                assert(children.update(q[0] as int, children[q[0] as int]) =~= children);
            },
            _ => {},
        }
    }
}

proof fn lemma_run_local_add(n: VNode, s1: Seq<PatchModel>, s2: Seq<PatchModel>)
    ensures
        run_local(n, s1 + s2) == match run_local(n, s1) {
            Some(x) => run_local(x, s2),
            None => None,
        },
    decreases s1.len(),
{
    if s1.len() == 0 {
        assert(s1 + s2 =~= s2);
    } else {
        assert((s1 + s2).drop_first() =~= s1.drop_first() + s2);
        assert((s1 + s2)[0] == s1[0]);
        match apply_local(n, s1[0]) {
            Ok(n2) => lemma_run_local_add(n2, s1.drop_first(), s2),
            Err(_) => {},
        }
    }
}

proof fn lemma_run_local_one(n: VNode, op: PatchModel)
    ensures
        run_local(n, seq![op]) == match apply_local(n, op) {
            Ok(x) => Some(x),
            Err(_) => None,
        },
{
    assert(seq![op][0] == op);
    assert(seq![op].drop_first() =~= Seq::<PatchModel>::empty());
    match apply_local(n, op) {
        Ok(x) => {
            assert(run_local(x, Seq::<PatchModel>::empty()) == Some(x));
        },
        Err(_) => {},
    }
}

proof fn lemma_without_name(a: Seq<(Seq<char>, Seq<char>)>, name: Seq<char>, n: int)
    requires
        names_unique(a),
        0 <= n <= a.len(),
    ensures
        names_unique(without_name(a, name, n)),
        forall|p: (Seq<char>, Seq<char>)| #[trigger] without_name(a, name, n).contains(p) <==> (a.take(n).contains(p) && p.0 != name),
        forall|nm: Seq<char>| #[trigger] has_name(without_name(a, name, n), nm) ==> has_name(a.take(n), nm),
    decreases n,
{
    let w = without_name(a, name, n);
    if n == 0 {
        assert(a.take(0) =~= Seq::<(Seq<char>, Seq<char>)>::empty());
        assert(w =~= Seq::<(Seq<char>, Seq<char>)>::empty());
    } else {
        lemma_without_name(a, name, n - 1);
        let w0 = without_name(a, name, n - 1);
        assert(a.take(n) =~= a.take(n - 1).push(a[n - 1]));
        assert forall|p: (Seq<char>, Seq<char>)| w.contains(p) <==> (a.take(n).contains(p) && p.0 != name) by {
            if w.contains(p) {
                let k = choose|k: int| 0 <= k < w.len() && #[trigger] w[k] == p;
                if k < w0.len() {
                    assert(w0.contains(p));
                } else {
                    assert(p == a[n - 1]);
                    assert(a.take(n)[n - 1] == p);
                }
            }
            if a.take(n).contains(p) && p.0 != name {
                let k = choose|k: int| 0 <= k < n && #[trigger] a.take(n)[k] == p;
                if k < n - 1 {
                    assert(a.take(n - 1)[k] == p);
                    assert(w0.contains(p));
                    let i = choose|i: int| 0 <= i < w0.len() && #[trigger] w0[i] == p;
                    assert(w[i] == p);
                } else {
                    assert(w[w.len() - 1] == p);
                }
            }
        }
        assert forall|nm: Seq<char>| #[trigger] has_name(w, nm) implies has_name(a.take(n), nm) by {
            let k = choose|k: int| 0 <= k < w.len() && (#[trigger] w[k]).0 == nm;
            if k < w0.len() {
                assert(w0[k] == w[k]);
                assert(has_name(w0, nm));
                let i = choose|i: int| 0 <= i < a.take(n - 1).len() && (#[trigger] a.take(n - 1)[i]).0 == nm;
                assert(a.take(n)[i] == a.take(n - 1)[i]);
            } else {
                assert(a.take(n)[n - 1] == a[n - 1]);
            }
        }
        if a[n - 1].0 != name {
            assert forall|i: int, j: int| 0 <= i < j < w.len() implies (#[trigger] w[i]).0 != (#[trigger] w[j]).0 by {
                if j == w.len() - 1 {
                    assert(w[i] == w0[i]);
                    if w[i].0 == a[n - 1].0 {
                        assert(has_name(w0, a[n - 1].0));
                        let k = choose|k: int| 0 <= k < a.take(n - 1).len() && (#[trigger] a.take(n - 1)[k]).0 == a[n - 1].0;
                        assert(a[k].0 == a[n - 1].0);
                    }
                } else {
                    assert(w[i] == w0[i]);
                    assert(w[j] == w0[j]);
                }
            }
        } else {
            assert(w =~= w0);
        }
    }
}

proof fn lemma_attr_index(a: Seq<(Seq<char>, Seq<char>)>, name: Seq<char>, i: int)
    requires
        0 <= i <= a.len(),
    ensures
        attr_index(a, name, i) == -1 ==> forall|k: int| i <= k < a.len() ==> (#[trigger] a[k]).0 != name,
        attr_index(a, name, i) != -1 ==> i <= attr_index(a, name, i) < a.len() && a[attr_index(a, name, i)].0 == name,
    decreases a.len() - i,
{
    if i < a.len() && a[i].0 != name {
        lemma_attr_index(a, name, i + 1);
    }
}

proof fn lemma_set_attr(w: Seq<(Seq<char>, Seq<char>)>, name: Seq<char>, value: Seq<char>)
    requires
        names_unique(w),
    ensures
        names_unique(set_attr(w, name, value)),
        forall|p: (Seq<char>, Seq<char>)| #[trigger] set_attr(w, name, value).contains(p) <==> (p == (name, value) || (w.contains(p) && p.0 != name)),
{
    lemma_attr_index(w, name, 0);
    let k = attr_index(w, name, 0);
    let r = set_attr(w, name, value);
    if k != -1 {
        assert forall|p: (Seq<char>, Seq<char>)| r.contains(p) <==> (p == (name, value) || (w.contains(p) && p.0 != name)) by {
            if r.contains(p) {
                let i = choose|i: int| 0 <= i < r.len() && #[trigger] r[i] == p;
                if i != k {
                    assert(w[i] == p);
                    assert(w[i].0 != w[k].0 || i == k);
                }
            }
            if p == (name, value) {
                assert(r[k] == p);
            } else if w.contains(p) && p.0 != name {
                let i = choose|i: int| 0 <= i < w.len() && #[trigger] w[i] == p;
                assert(i != k);
                assert(r[i] == p);
            }
        }
        assert forall|i: int, j: int| 0 <= i < j < r.len() implies (#[trigger] r[i]).0 != (#[trigger] r[j]).0 by {
            assert(w[i].0 != w[j].0);
            if i == k {
                assert(w[j].0 != w[k].0);
            }
            if j == k {
                assert(w[i].0 != w[k].0);
            }
        }
    } else {
        assert forall|p: (Seq<char>, Seq<char>)| r.contains(p) <==> (p == (name, value) || (w.contains(p) && p.0 != name)) by {
            if r.contains(p) {
                let i = choose|i: int| 0 <= i < r.len() && #[trigger] r[i] == p;
                if i < w.len() {
                    assert(w[i] == p);
                }
            }
            if p == (name, value) {
                assert(r[w.len() as int] == p);
            } else if w.contains(p) && p.0 != name {
                let i = choose|i: int| 0 <= i < w.len() && #[trigger] w[i] == p;
                assert(r[i] == p);
            }
        }
        assert forall|i: int, j: int| 0 <= i < j < r.len() implies (#[trigger] r[i]).0 != (#[trigger] r[j]).0 by {
            if j == w.len() {
                assert(w[i].0 != name);
            } else {
                assert(w[i].0 != w[j].0);
            }
        }
    }
}

/// `x` is an element with the tag, children and key of `e`.
pub open spec fn same_frame(x: VNode, e: VNode) -> bool {
    x is Element && e is Element && x->tag == e->tag && x->children == e->children && x->key == e->key
}

proof fn lemma_removals_run(
    path: Seq<usize>,
    e: VNode,
    na: Seq<(Seq<char>, Seq<char>)>,
    m: int,
)
    requires
        e is Element,
        names_unique(e->attrs),
        0 <= m <= e->attrs.len(),
    ensures
        run_local(e, attr_removals(path, e->attrs, na, m)) is Some,
        same_frame(run_local(e, attr_removals(path, e->attrs, na, m))->0, e),
        names_unique(run_local(e, attr_removals(path, e->attrs, na, m))->0->attrs),
        forall|p: (Seq<char>, Seq<char>)| #[trigger] run_local(e, attr_removals(path, e->attrs, na, m))->0->attrs.contains(p) <==> (e->attrs.contains(p) && !(e->attrs.take(m).contains(p) && !has_name(na, p.0))),
    decreases m,
{
    let pa = e->attrs;
    if m == 0 {
        assert(run_local(e, Seq::<PatchModel>::empty()) == Some(e));
        assert(pa.take(0) =~= Seq::<(Seq<char>, Seq<char>)>::empty());
    } else {
        lemma_removals_run(path, e, na, m - 1);
        let r0 = attr_removals(path, pa, na, m - 1);
        let x = run_local(e, r0)->0;
        let y = pa[m - 1];
        assert(pa.take(m) =~= pa.take(m - 1).push(y));
        if !has_name(na, y.0) {
            let op = PatchModel::RemoveAttribute { path, name: y.0 };
            assert(attr_removals(path, pa, na, m) == r0 + seq![op]);
            lemma_run_local_add(e, r0, seq![op]);
            lemma_run_local_one(x, op);
            lemma_without_name(x->attrs, y.0, x->attrs.len() as int);
            assert(x->attrs.take(x->attrs.len() as int) =~= x->attrs);
            let x2 = run_local(e, attr_removals(path, pa, na, m))->0;
            assert forall|p: (Seq<char>, Seq<char>)| #[trigger] x2->attrs.contains(p) <==> (pa.contains(p) && !(pa.take(m).contains(p) && !has_name(na, p.0))) by {
                if pa.contains(p) && p.0 == y.0 {
                    let i = choose|i: int| 0 <= i < pa.len() && #[trigger] pa[i] == p;
                    assert(pa[i].0 == pa[m - 1].0);
                    assert(i == m - 1);
                    assert(pa.take(m)[m - 1] == p);
                }
                if pa.take(m).contains(p) && p != y {
                    let i = choose|i: int| 0 <= i < m && #[trigger] pa.take(m)[i] == p;
                    assert(i != m - 1);
                    assert(pa.take(m - 1)[i] == p);
                }
                if pa.take(m - 1).contains(p) {
                    let i = choose|i: int| 0 <= i < m - 1 && #[trigger] pa.take(m - 1)[i] == p;
                    assert(pa.take(m)[i] == p);
                }
            }
        } else {
            assert(attr_removals(path, pa, na, m) =~= r0);
            assert forall|p: (Seq<char>, Seq<char>)| #[trigger] x->attrs.contains(p) <==> (pa.contains(p) && !(pa.take(m).contains(p) && !has_name(na, p.0))) by {
                if pa.take(m).contains(p) && p != y {
                    let i = choose|i: int| 0 <= i < m && #[trigger] pa.take(m)[i] == p;
                    assert(i != m - 1);
                    assert(pa.take(m - 1)[i] == p);
                }
                if pa.take(m - 1).contains(p) {
                    let i = choose|i: int| 0 <= i < m - 1 && #[trigger] pa.take(m - 1)[i] == p;
                    assert(pa.take(m)[i] == p);
                }
            }
        }
    }
}

proof fn lemma_sets_run(
    path: Seq<usize>,
    pa: Seq<(Seq<char>, Seq<char>)>,
    e: VNode,
    na: Seq<(Seq<char>, Seq<char>)>,
    m: int,
)
    requires
        e is Element,
        names_unique(e->attrs),
        names_unique(pa),
        names_unique(na),
        0 <= m <= na.len(),
        forall|p: (Seq<char>, Seq<char>)| #[trigger] e->attrs.contains(p) <==> (pa.contains(p) && has_name(na, p.0)),
    ensures
        run_local(e, attr_sets(path, pa, na, m)) is Some,
        same_frame(run_local(e, attr_sets(path, pa, na, m))->0, e),
        names_unique(run_local(e, attr_sets(path, pa, na, m))->0->attrs),
        forall|p: (Seq<char>, Seq<char>)| #[trigger] run_local(e, attr_sets(path, pa, na, m))->0->attrs.contains(p) <==> (na.take(m).contains(p) || (pa.contains(p) && has_name(na, p.0) && !has_name(na.take(m), p.0))),
    decreases m,
{
    if m == 0 {
        assert(run_local(e, Seq::<PatchModel>::empty()) == Some(e));
        assert(na.take(0) =~= Seq::<(Seq<char>, Seq<char>)>::empty());
    } else {
        lemma_sets_run(path, pa, e, na, m - 1);
        let s0 = attr_sets(path, pa, na, m - 1);
        let x = run_local(e, s0)->0;
        let y = na[m - 1];
        assert(na.take(m) =~= na.take(m - 1).push(y));
        assert(na.take(m)[m - 1] == y);
        assert forall|p: (Seq<char>, Seq<char>)| p.0 == y.0 && na.take(m).contains(p) implies p == y by {
            let i = choose|i: int| 0 <= i < m && #[trigger] na.take(m)[i] == p;
            assert(na[i] == p);
        }
        assert forall|p: (Seq<char>, Seq<char>)| p.0 == y.0 implies !(#[trigger] na.take(m - 1).contains(p)) by {
            if na.take(m - 1).contains(p) {
                let i = choose|i: int| 0 <= i < m - 1 && #[trigger] na.take(m - 1)[i] == p;
                assert(na[i].0 == na[m - 1].0);
            }
        }
        assert(!has_name(na.take(m - 1), y.0)) by {
            if has_name(na.take(m - 1), y.0) {
                let i = choose|i: int| 0 <= i < na.take(m - 1).len() && (#[trigger] na.take(m - 1)[i]).0 == y.0;
                assert(na[i].0 == na[m - 1].0);
            }
        }
        assert(has_name(na.take(m), y.0));
        assert(has_name(na, y.0)) by {
            assert(na[m - 1].0 == y.0);
        }
        assert forall|nm: Seq<char>| nm != y.0 implies (has_name(na.take(m), nm) <==> has_name(na.take(m - 1), nm)) by {
            if has_name(na.take(m), nm) {
                let i = choose|i: int| 0 <= i < na.take(m).len() && (#[trigger] na.take(m)[i]).0 == nm;
                assert(na.take(m - 1)[i] == na.take(m)[i]);
            }
            if has_name(na.take(m - 1), nm) {
                let i = choose|i: int| 0 <= i < na.take(m - 1).len() && (#[trigger] na.take(m - 1)[i]).0 == nm;
                assert(na.take(m)[i] == na.take(m - 1)[i]);
            }
        }
        assert forall|p: (Seq<char>, Seq<char>)| p != y implies (na.take(m).contains(p) <==> na.take(m - 1).contains(p)) by {
            if na.take(m).contains(p) {
                let i = choose|i: int| 0 <= i < m && #[trigger] na.take(m)[i] == p;
                assert(na.take(m - 1)[i] == p);
            }
            if na.take(m - 1).contains(p) {
                let i = choose|i: int| 0 <= i < m - 1 && #[trigger] na.take(m - 1)[i] == p;
                assert(na.take(m)[i] == p);
            }
        }
        if needs_set(pa, y) {
            let op = PatchModel::SetAttribute { path, name: y.0, value: y.1 };
            assert(attr_sets(path, pa, na, m) == s0 + seq![op]);
            lemma_run_local_add(e, s0, seq![op]);
            lemma_run_local_one(x, op);
            lemma_set_attr(x->attrs, y.0, y.1);
            let x2 = run_local(e, attr_sets(path, pa, na, m))->0;
            assert forall|p: (Seq<char>, Seq<char>)| #[trigger] x2->attrs.contains(p) <==> (na.take(m).contains(p) || (pa.contains(p) && has_name(na, p.0) && !has_name(na.take(m), p.0))) by {
                if p.0 != y.0 {
                    assert(p != y);
                }
            }
        } else {
            assert(attr_sets(path, pa, na, m) =~= s0);
            assert(pa.contains(y));
            assert forall|p: (Seq<char>, Seq<char>)| #[trigger] x->attrs.contains(p) <==> (na.take(m).contains(p) || (pa.contains(p) && has_name(na, p.0) && !has_name(na.take(m), p.0))) by {
                if p.0 == y.0 && pa.contains(p) {
                    let i = choose|i: int| 0 <= i < pa.len() && #[trigger] pa[i] == p;
                    let j = choose|j: int| 0 <= j < pa.len() && #[trigger] pa[j] == y;
                    assert(pa[i].0 == pa[j].0);
                    assert(i == j);
                }
                if p.0 != y.0 {
                    assert(p != y);
                }
            }
        }
    }
}

/// Applying the attribute edits between two elements of one tag to the
/// first leaves exactly the attributes of the second, as pairs.
proof fn lemma_attrs_run(path: Seq<usize>, e: VNode, na: Seq<(Seq<char>, Seq<char>)>)
    requires
        e is Element,
        names_unique(e->attrs),
        names_unique(na),
    ensures
        run_local(e, attr_ops(path, e->attrs, na)) is Some,
        same_frame(run_local(e, attr_ops(path, e->attrs, na))->0, e),
        forall|p: (Seq<char>, Seq<char>)| #[trigger] run_local(e, attr_ops(path, e->attrs, na))->0->attrs.contains(p) <==> na.contains(p),
{
    let pa = e->attrs;
    lemma_removals_run(path, e, na, pa.len() as int);
    assert(pa.take(pa.len() as int) =~= pa);
    let r = attr_removals(path, pa, na, pa.len() as int);
    let x = run_local(e, r)->0;
    lemma_sets_run(path, pa, x, na, na.len() as int);
    assert(na.take(na.len() as int) =~= na);
    let st = attr_sets(path, pa, na, na.len() as int);
    lemma_run_local_add(e, r, st);
    let x2 = run_local(x, st)->0;
    assert forall|p: (Seq<char>, Seq<char>)| #[trigger] x2->attrs.contains(p) <==> na.contains(p) by {
        if has_name(na, p.0) {
        }
    }
}

/// Two trees that a host shows alike: the same kinds, tags, texts,
/// attribute pairs, and children in the same order. Keys are not shown.
pub open spec fn obs_eq(x: VNode, y: VNode) -> bool
    decreases x,
{
    match x {
        VNode::Empty => y is Empty,
        VNode::Text { value } => y is Text && y->value == value,
        VNode::Element { tag, attrs, children, .. } => {
            &&& y is Element
            &&& y->tag == tag
            &&& forall|p: (Seq<char>, Seq<char>)| #[trigger] attrs.contains(p) <==> y->attrs.contains(p)
            &&& children.len() == y->children.len()
            &&& forall|i: int| 0 <= i < children.len() ==> obs_eq(#[trigger] children[i], y->children[i])
        },
    }
}

/// A tree whose elements have attributes with distinct names and child
/// lists no longer than a `Vec` of nodes can be (at most `isize::MAX`).
pub open spec fn distinct_attrs(n: VNode) -> bool
    decreases n,
{
    match n {
        VNode::Element { attrs, children, .. } => {
            &&& names_unique(attrs)
            &&& children.len() <= usize::MAX / 2
            &&& forall|i: int| 0 <= i < children.len() ==> distinct_attrs(#[trigger] children[i])
        },
        _ => true,
    }
}

proof fn lemma_obs_refl(x: VNode)
    ensures
        obs_eq(x, x),
    decreases x,
{
    match x {
        VNode::Element { children, .. } => {
            assert forall|i: int| 0 <= i < children.len() implies obs_eq(#[trigger] children[i], children[i]) by {
                lemma_obs_refl(children[i]);
            }
        },
        _ => {},
    }
}

proof fn lemma_one_op(h: VNode, q: Seq<usize>, n: VNode, op: PatchModel, y: VNode)
    requires
        node_at(h, q) == Some(n),
        op_path(op) == q,
        apply_local(n, op) == Ok::<VNode, PatchError>(y),
    ensures
        run_clean(h, seq![op]) == Some(replace_at(h, q, y)),
        node_at(replace_at(h, q, y), q) == Some(y),
{
    lemma_apply_lift(h, q, op, n, y);
    assert(seq![op][0] == op);
    assert(seq![op].drop_first() =~= Seq::<PatchModel>::empty());
    assert(run_clean(replace_at(h, q, y), Seq::<PatchModel>::empty()) == Some(replace_at(h, q, y)));
    lemma_replace_twice(h, q, y, y);
}

/// The element `e` with children `c`.
pub open spec fn with_children(e: VNode, c: Seq<VNode>) -> VNode {
    VNode::Element { tag: e->tag, attrs: e->attrs, children: c, key: e->key }
}

proof fn lemma_inserts_run(q: Seq<usize>, e: VNode, cb: Seq<VNode>, lo: int, n: int)
    requires
        e is Element,
        e->children.len() == lo,
        0 <= lo <= n <= cb.len(),
        cb.len() <= usize::MAX,
    ensures
        run_local(e, inserts(q, cb, lo, n)) == Some(with_children(e, e->children + cb.subrange(lo, n))),
    decreases n,
{
    if n == lo {
        assert(e->children + cb.subrange(lo, n) =~= e->children);
        assert(with_children(e, e->children) == e);
        assert(inserts(q, cb, lo, n) == Seq::<PatchModel>::empty());
    } else {
        lemma_inserts_run(q, e, cb, lo, n - 1);
        let op = PatchModel::InsertChild { path: q, index: (n - 1) as usize, node: cb[n - 1] };
        assert(inserts(q, cb, lo, n) == inserts(q, cb, lo, n - 1) + seq![op]);
        lemma_run_local_add(e, inserts(q, cb, lo, n - 1), seq![op]);
        let x = with_children(e, e->children + cb.subrange(lo, n - 1));
        lemma_run_local_one(x, op);
        assert((e->children + cb.subrange(lo, n - 1)).insert(n - 1, cb[n - 1]) =~= e->children
            + cb.subrange(lo, n));
    }
}

proof fn lemma_tail_removes_run(q: Seq<usize>, e: VNode, n: int, hi: int)
    requires
        e is Element,
        e->children.len() == hi,
        0 <= n <= hi,
        hi <= usize::MAX + 1,
    ensures
        run_local(e, tail_removes(q, n, hi)) == Some(with_children(e, e->children.take(n))),
    decreases hi - n,
{
    if n == hi {
        assert(e->children.take(n) =~= e->children);
        assert(with_children(e, e->children) == e);
        assert(tail_removes(q, n, hi) == Seq::<PatchModel>::empty());
    } else {
        lemma_tail_removes_run(q, e, n + 1, hi);
        let op = PatchModel::RemoveChild { path: q, index: n as usize };
        lemma_run_local_add(e, tail_removes(q, n + 1, hi), seq![op]);
        let x = with_children(e, e->children.take(n + 1));
        lemma_run_local_one(x, op);
        assert(e->children.take(n + 1).remove(n) =~= e->children.take(n));
    }
}

proof fn lemma_child_ops_path(s: Seq<PatchModel>, q: Seq<usize>)
    requires
        all_child_ops_at(s, q),
    ensures
        forall|k: int| 0 <= k < s.len() ==> op_path(#[trigger] s[k]) == q,
{
    assert forall|k: int| 0 <= k < s.len() implies op_path(#[trigger] s[k]) == q by {
        assert(is_child_op_at(s[k], q));
    }
}

proof fn lemma_attr_ops_path(s: Seq<PatchModel>, q: Seq<usize>)
    requires
        all_attr_ops_at(s, q),
    ensures
        forall|k: int| 0 <= k < s.len() ==> op_path(#[trigger] s[k]) == q,
{
    assert forall|k: int| 0 <= k < s.len() implies op_path(#[trigger] s[k]) == q by {
        assert(is_attr_op_at(s[k], q));
    }
}

/// The state after comparing the first `n` children by position: the
/// element at `q` keeps its frame, its first `n` children look like those
/// of `cb`, and the rest are still those of `ca`.
pub open spec fn common_state(r: VNode, h: VNode, q: Seq<usize>, e: VNode, ca: Seq<VNode>, cb: Seq<VNode>, n: int) -> bool {
    &&& node_at(r, q) is Some
    &&& r == replace_at(h, q, node_at(r, q)->0)
    &&& node_at(r, q)->0 is Element
    &&& node_at(r, q)->0->tag == e->tag
    &&& node_at(r, q)->0->attrs == e->attrs
    &&& node_at(r, q)->0->key == e->key
    &&& node_at(r, q)->0->children.len() == ca.len()
    &&& forall|k: int| 0 <= k < n ==> obs_eq(#[trigger] node_at(r, q)->0->children[k], cb[k])
    &&& forall|k: int| n <= k < ca.len() ==> #[trigger] node_at(r, q)->0->children[k] == ca[k]
}

proof fn lemma_common_run(h: VNode, q: Seq<usize>, e: VNode, ca: Seq<VNode>, cb: Seq<VNode>, n: int)
    requires
        node_at(h, q) == Some(e),
        e is Element,
        e->children == ca,
        0 <= n <= ca.len(),
        n <= cb.len(),
        ca.len() <= usize::MAX,
        forall|i: int| 0 <= i < ca.len() ==> distinct_attrs(#[trigger] ca[i]),
        forall|i: int| 0 <= i < cb.len() ==> distinct_attrs(#[trigger] cb[i]),
    ensures
        run_clean(h, common_ops(q, ca, cb, n)) is Some,
        common_state(run_clean(h, common_ops(q, ca, cb, n))->0, h, q, e, ca, cb, n),
    decreases ca, n,
{
    if n == 0 {
        assert(common_ops(q, ca, cb, n) == Seq::<PatchModel>::empty());
        assert(run_clean(h, Seq::<PatchModel>::empty()) == Some(h));
        lemma_replace_self(h, q, e);
    } else {
        lemma_common_run(h, q, e, ca, cb, n - 1);
        let c0 = common_ops(q, ca, cb, n - 1);
        let r = run_clean(h, c0)->0;
        let e2 = node_at(r, q)->0;
        let j = (n - 1) as usize;
        let d = diff_spec(ca[n - 1], cb[n - 1], q.push(j));
        assert(common_ops(q, ca, cb, n) == c0 + d);
        lemma_run_clean_add(h, c0, d);
        lemma_child_at(r, q, e2, j, e2);
        lemma_round_trip_at(r, q.push(j), ca[n - 1], cb[n - 1]);
        let r2 = run_clean(r, d)->0;
        let c2 = node_at(r2, q.push(j))->0;
        lemma_child_at(r, q, e2, j, c2);
        let e3 = with_child(e2, n - 1, c2);
        lemma_replace_twice(h, q, e2, e3);
        assert(node_at(h, q) is Some);
        assert(r2 == replace_at(h, q, e3));
        lemma_replace_twice(h, q, e3, e3);
        assert(node_at(r2, q) == Some(e3));
        assert forall|k: int| 0 <= k < n implies obs_eq(#[trigger] e3->children[k], cb[k]) by {
            if k < n - 1 {
                assert(e3->children[k] == e2->children[k]);
            }
        }
    }
}

/// Running the diff of `a` against `b`, at the place `q` where `a` stands
/// in the host `h`, succeeds at every step and leaves there a tree that looks
/// like `b`, with the rest of the host untouched.
proof fn lemma_round_trip_at(h: VNode, q: Seq<usize>, a: VNode, b: VNode)
    requires
        node_at(h, q) == Some(a),
        distinct_attrs(a),
        distinct_attrs(b),
    ensures
        run_clean(h, diff_spec(a, b, q)) is Some,
        node_at(run_clean(h, diff_spec(a, b, q))->0, q) is Some,
        obs_eq(node_at(run_clean(h, diff_spec(a, b, q))->0, q)->0, b),
        run_clean(h, diff_spec(a, b, q))->0 == replace_at(
            h,
            q,
            node_at(run_clean(h, diff_spec(a, b, q))->0, q)->0,
        ),
    decreases a, 0int,
{
    let rep = PatchModel::Replace { path: q, node: b };
    let same_tag = a is Element && b is Element && a->tag == b->tag;
    if (a is Empty && b is Empty) || (a is Text && b is Text && a->value == b->value) {
        assert(diff_spec(a, b, q) == Seq::<PatchModel>::empty());
        assert(run_clean(h, Seq::<PatchModel>::empty()) == Some(h));
        lemma_replace_self(h, q, a);
        lemma_obs_refl(b);
    } else if a is Text && b is Text {
        let op = PatchModel::SetText { path: q, value: b->value };
        assert(diff_spec(a, b, q) == seq![op]);
        lemma_one_op(h, q, a, op, b);
        lemma_replace_twice(h, q, b, b);
        lemma_obs_refl(b);
    } else if !same_tag {
        assert(diff_spec(a, b, q) == seq![rep]);
        lemma_one_op(h, q, a, rep, b);
        lemma_replace_twice(h, q, b, b);
        lemma_obs_refl(b);
    } else {
        let aa = a->attrs;
        let ab = b->attrs;
        let ca = a->children;
        let cb = b->children;
        let at = attr_ops(q, aa, ab);
        let cp = child_part(q, ca, cb);
        assert(diff_spec(a, b, q) == at + cp);
        lemma_attrs_run(q, a, ab);
        lemma_attr_kind(q, aa, ab);
        lemma_attr_ops_path(at, q);
        let a1 = run_local(a, at)->0;
        lemma_run_local_lift(h, q, at, a);
        let h1 = replace_at(h, q, a1);
        lemma_replace_twice(h, q, a1, a1);
        lemma_children_run(h1, q, a1, ca, cb);
        lemma_run_clean_add(h, at, cp);
        let r = run_clean(h1, cp)->0;
        let e3 = node_at(r, q)->0;
        lemma_replace_twice(h, q, a1, e3);
        lemma_replace_twice(h, q, e3, e3);
        let fin = run_clean(h, diff_spec(a, b, q))->0;
        assert(fin == replace_at(h, q, e3));
        assert(node_at(fin, q) == Some(e3));
    }
}

/// The element at `q` in `r` keeps the frame of `e`, and its children look
/// like `cb`; the rest of `r` is `h`.
pub open spec fn children_done(r: VNode, h: VNode, q: Seq<usize>, e: VNode, cb: Seq<VNode>) -> bool {
    &&& node_at(r, q) is Some
    &&& r == replace_at(h, q, node_at(r, q)->0)
    &&& node_at(r, q)->0 is Element
    &&& node_at(r, q)->0->tag == e->tag
    &&& node_at(r, q)->0->attrs == e->attrs
    &&& node_at(r, q)->0->key == e->key
    &&& node_at(r, q)->0->children.len() == cb.len()
    &&& forall|k: int| 0 <= k < cb.len() ==> obs_eq(#[trigger] node_at(r, q)->0->children[k], cb[k])
}

proof fn lemma_children_run(h: VNode, q: Seq<usize>, e: VNode, ca: Seq<VNode>, cb: Seq<VNode>)
    requires
        node_at(h, q) == Some(e),
        e is Element,
        e->children == ca,
        ca.len() <= usize::MAX / 2,
        cb.len() <= usize::MAX / 2,
        forall|i: int| 0 <= i < ca.len() ==> distinct_attrs(#[trigger] ca[i]),
        forall|i: int| 0 <= i < cb.len() ==> distinct_attrs(#[trigger] cb[i]),
    ensures
        run_clean(h, child_part(q, ca, cb)) is Some,
        children_done(run_clean(h, child_part(q, ca, cb))->0, h, q, e, cb),
    decreases ca, cb.len() + 2,
{
    if keyed_mode(ca, cb) {
        lemma_keyed_run(h, q, e, ca, cb);
    } else {
        let m = if ca.len() < cb.len() {
            ca.len() as int
        } else {
            cb.len() as int
        };
        let co = common_ops(q, ca, cb, m);
        let tl = if cb.len() > ca.len() {
            inserts(q, cb, ca.len() as int, cb.len() as int)
        } else {
            tail_removes(q, cb.len() as int, ca.len() as int)
        };
        lemma_common_run(h, q, e, ca, cb, m);
        let r = run_clean(h, co)->0;
        let e2 = node_at(r, q)->0;
        if cb.len() > ca.len() {
            lemma_inserts_run(q, e2, cb, ca.len() as int, cb.len() as int);
            lemma_inserts_kind(q, cb, ca.len() as int, cb.len() as int);
        } else {
            lemma_tail_removes_run(q, e2, cb.len() as int, ca.len() as int);
            lemma_tail_removes_kind(q, cb.len() as int, ca.len() as int);
        }
        lemma_child_ops_path(tl, q);
        lemma_run_local_lift(r, q, tl, e2);
        let e3 = run_local(e2, tl)->0;
        lemma_run_clean_add(h, co, tl);
        lemma_replace_twice(h, q, e2, e3);
        lemma_replace_twice(h, q, e3, e3);
        let fin = run_clean(h, co + tl)->0;
        assert(fin == replace_at(h, q, e3));
        assert(node_at(fin, q) == Some(e3));
        assert forall|k: int| 0 <= k < cb.len() implies obs_eq(#[trigger] e3->children[k], cb[k]) by {
            if k >= ca.len() {
                assert(e3->children[k] == cb[k]);
                lemma_obs_refl(cb[k]);
            } else {
                assert(e3->children[k] == e2->children[k]);
            }
        }
    }
}

/// The indices at or after `i`, in order, of the previous children whose key
/// some next child carries.
pub open spec fn survivors_from(prev: Seq<VNode>, next: Seq<VNode>, i: int) -> Seq<usize>
    decreases prev.len() - i,
{
    if i < 0 || i >= prev.len() {
        Seq::empty()
    } else {
        (if key_in(next, node_key(prev[i])) {
            seq![i as usize]
        } else {
            Seq::empty()
        }) + survivors_from(prev, next, i + 1)
    }
}

/// The previous children that the indices of `cur` name.
pub open spec fn pick(prev: Seq<VNode>, cur: Seq<usize>) -> Seq<VNode> {
    Seq::new(cur.len(), |r: int| prev[cur[r] as int])
}

proof fn lemma_survivors_split(prev: Seq<VNode>, next: Seq<VNode>, m: int)
    requires
        0 <= m <= prev.len(),
    ensures
        surviving(prev, next, m) + survivors_from(prev, next, m) == survivors_from(prev, next, 0),
    decreases m,
{
    if m == 0 {
        assert(surviving(prev, next, 0) + survivors_from(prev, next, 0) =~= survivors_from(prev, next, 0));
    } else {
        lemma_survivors_split(prev, next, m - 1);
        let x = if key_in(next, node_key(prev[m - 1])) {
            seq![(m - 1) as usize]
        } else {
            Seq::<usize>::empty()
        };
        assert(survivors_from(prev, next, m - 1) == x + survivors_from(prev, next, m));
        assert(surviving(prev, next, m) == surviving(prev, next, m - 1) + x);
        assert(surviving(prev, next, m) + survivors_from(prev, next, m) =~= surviving(prev, next, m - 1)
            + survivors_from(prev, next, m - 1));
    }
}

proof fn lemma_survivors_bounds(prev: Seq<VNode>, next: Seq<VNode>, i: int)
    requires
        0 <= i <= prev.len(),
        prev.len() <= usize::MAX,
    ensures
        survivors_from(prev, next, i).len() <= prev.len() - i,
        forall|r: int| 0 <= r < survivors_from(prev, next, i).len() ==> i <= #[trigger] survivors_from(prev, next, i)[r] < prev.len(),
    decreases prev.len() - i,
{
    if i < prev.len() {
        lemma_survivors_bounds(prev, next, i + 1);
    }
}

proof fn lemma_keyed_removes_run(q: Seq<usize>, e: VNode, ca: Seq<VNode>, cb: Seq<VNode>, i: int)
    requires
        e is Element,
        e->children == ca,
        0 <= i <= ca.len(),
        ca.len() <= usize::MAX,
    ensures
        run_local(e, keyed_removes(q, ca, cb, i)) == Some(with_children(e, ca.take(i) + pick(ca, survivors_from(ca, cb, i)))),
    decreases ca.len() - i,
{
    lemma_survivors_bounds(ca, cb, i);
    if i == ca.len() {
        assert(keyed_removes(q, ca, cb, i) == Seq::<PatchModel>::empty());
        assert(ca.take(i) + pick(ca, survivors_from(ca, cb, i)) =~= ca);
        assert(with_children(e, ca) == e);
    } else {
        lemma_keyed_removes_run(q, e, ca, cb, i + 1);
        lemma_survivors_bounds(ca, cb, i + 1);
        let p1 = pick(ca, survivors_from(ca, cb, i + 1));
        let e1 = with_children(e, ca.take(i + 1) + p1);
        if !key_in(cb, node_key(ca[i])) {
            let op = PatchModel::RemoveChild { path: q, index: i as usize };
            assert(keyed_removes(q, ca, cb, i) == keyed_removes(q, ca, cb, i + 1) + seq![op]);
            lemma_run_local_add(e, keyed_removes(q, ca, cb, i + 1), seq![op]);
            lemma_run_local_one(e1, op);
            assert(survivors_from(ca, cb, i) =~= survivors_from(ca, cb, i + 1));
            assert((ca.take(i + 1) + p1).remove(i) =~= ca.take(i) + p1);
        } else {
            assert(keyed_removes(q, ca, cb, i) =~= keyed_removes(q, ca, cb, i + 1));
            assert(survivors_from(ca, cb, i) == seq![i as usize] + survivors_from(ca, cb, i + 1));
            assert(ca.take(i + 1) + p1 =~= ca.take(i) + pick(ca, survivors_from(ca, cb, i)));
        }
    }
}

proof fn lemma_find_range(prev: Seq<VNode>, cur: Seq<usize>, k: Option<Seq<char>>, q: int)
    requires
        0 <= q,
    ensures
        find_key(prev, cur, k, q) == -1 || (q <= find_key(prev, cur, k, q) < cur.len() && cur[find_key(prev, cur, k, q)] < prev.len()),
    decreases cur.len() - q,
{
    if q < cur.len() && !(cur[q] < prev.len() && node_key(prev[cur[q] as int]) == k) {
        lemma_find_range(prev, cur, k, q + 1);
    }
}

/// The state of the keyed placement at position `j`: the element at `q`
/// keeps the frame of `e`, its first `j` children look like those of `cb`,
/// and from `j` on it holds the previous children that `cur` names.
pub open spec fn place_state(r: VNode, h: VNode, q: Seq<usize>, e: VNode, ca: Seq<VNode>, cb: Seq<VNode>, cur: Seq<usize>, j: int) -> bool {
    &&& node_at(r, q) is Some
    &&& r == replace_at(h, q, node_at(r, q)->0)
    &&& node_at(r, q)->0 is Element
    &&& node_at(r, q)->0->tag == e->tag
    &&& node_at(r, q)->0->attrs == e->attrs
    &&& node_at(r, q)->0->key == e->key
    &&& node_at(r, q)->0->children.len() == cur.len()
    &&& 0 <= j <= cur.len() <= ca.len() + j
    &&& forall|k: int| 0 <= k < j ==> obs_eq(#[trigger] node_at(r, q)->0->children[k], cb[k])
    &&& forall|k: int| j <= k < cur.len() ==> #[trigger] cur[k] < ca.len() && node_at(r, q)->0->children[k] == ca[cur[k] as int]
}

proof fn lemma_place_run(r: VNode, h: VNode, q: Seq<usize>, e: VNode, ca: Seq<VNode>, cb: Seq<VNode>, cur: Seq<usize>, j: int)
    requires
        node_at(h, q) is Some,
        place_state(r, h, q, e, ca, cb, cur, j),
        j <= cb.len(),
        ca.len() <= usize::MAX / 2,
        cb.len() <= usize::MAX / 2,
        forall|i: int| 0 <= i < ca.len() ==> distinct_attrs(#[trigger] ca[i]),
        forall|i: int| 0 <= i < cb.len() ==> distinct_attrs(#[trigger] cb[i]),
    ensures
        run_clean(r, keyed_place(q, ca, cb, cur, j)) is Some,
        children_done(run_clean(r, keyed_place(q, ca, cb, cur, j))->0, h, q, e, cb),
    decreases ca, cb.len() - j,
{
    let e2 = node_at(r, q)->0;
    let c = e2->children;
    if j == cb.len() {
        let tl = tail_removes(q, cb.len() as int, cur.len() as int);
        assert(keyed_place(q, ca, cb, cur, j) == tl);
        lemma_tail_removes_run(q, e2, cb.len() as int, cur.len() as int);
        lemma_tail_removes_kind(q, cb.len() as int, cur.len() as int);
        lemma_child_ops_path(tl, q);
        lemma_run_local_lift(r, q, tl, e2);
        let e3 = run_local(e2, tl)->0;
        lemma_replace_twice(h, q, e2, e3);
        lemma_replace_twice(h, q, e3, e3);
        let fin = run_clean(r, tl)->0;
        assert(fin == replace_at(h, q, e3));
        assert(node_at(fin, q) == Some(e3));
        assert forall|k: int| 0 <= k < cb.len() implies obs_eq(#[trigger] e3->children[k], cb[k]) by {
            assert(e3->children[k] == c[k]);
        }
    } else {
        let k = node_key(cb[j]);
        let p = find_key(ca, cur, k, j);
        lemma_find_range(ca, cur, k, j);
        if 0 <= p < cur.len() && cur[p] < ca.len() {
            let i = cur[p] as int;
            let mv: Seq<PatchModel> = if p != j {
                seq![PatchModel::MoveChild { path: q, from: p as usize, to: j as usize }]
            } else {
                Seq::empty()
            };
            let d = diff_spec(ca[i], cb[j], q.push(j as usize));
            let cur2 = cur.remove(p).insert(j, cur[p]);
            let rest = keyed_place(q, ca, cb, cur2, j + 1);
            assert(keyed_place(q, ca, cb, cur, j) == mv + d + rest);
            let c2 = c.remove(p).insert(j, c[p]);
            let e2m = with_children(e2, c2);
            if p != j {
                let op = PatchModel::MoveChild { path: q, from: p as usize, to: j as usize };
                lemma_one_op(r, q, e2, op, e2m);
            } else {
                assert(c2 =~= c);
                assert(e2m == e2);
                assert(run_clean(r, mv) == Some(r));
                lemma_replace_twice(h, q, e2, e2);
            }
            let r1 = run_clean(r, mv)->0;
            lemma_replace_twice(h, q, e2, e2m);
            assert(r1 == replace_at(h, q, e2m));
            assert(node_at(r1, q) == Some(e2m));
            assert(c2[j] == c[p]);
            lemma_child_at(r1, q, e2m, j as usize, e2m);
            lemma_round_trip_at(r1, q.push(j as usize), ca[i], cb[j]);
            let r2 = run_clean(r1, d)->0;
            let ch = node_at(r2, q.push(j as usize))->0;
            lemma_child_at(r1, q, e2m, j as usize, ch);
            let e3 = with_child(e2m, j, ch);
            lemma_replace_twice(h, q, e2m, e3);
            lemma_replace_twice(h, q, e3, e3);
            assert(r2 == replace_at(h, q, e3));
            assert(node_at(r2, q) == Some(e3));
            assert forall|x: int| j + 1 <= x < cur2.len() implies #[trigger] cur2[x] < ca.len() && node_at(r2, q)->0->children[x] == ca[cur2[x] as int] by {
                if x <= p {
                    assert(cur2[x] == cur[x - 1]);
                    assert(e3->children[x] == c[x - 1]);
                } else {
                    assert(cur2[x] == cur[x]);
                    assert(e3->children[x] == c[x]);
                }
            }
            assert forall|x: int| 0 <= x < j + 1 implies obs_eq(#[trigger] node_at(r2, q)->0->children[x], cb[x]) by {
                if x < j {
                    assert(e3->children[x] == c[x]);
                }
            }
            assert(place_state(r2, h, q, e, ca, cb, cur2, j + 1));
            lemma_place_run(r2, h, q, e, ca, cb, cur2, j + 1);
            lemma_run_clean_add(r, mv, d);
            lemma_run_clean_add(r, mv + d, rest);
        } else {
            let ins = PatchModel::InsertChild { path: q, index: j as usize, node: cb[j] };
            let cur2 = cur.insert(j, ca.len() as usize);
            let rest = keyed_place(q, ca, cb, cur2, j + 1);
            assert(keyed_place(q, ca, cb, cur, j) == seq![ins] + rest);
            let e3 = with_children(e2, c.insert(j, cb[j]));
            lemma_one_op(r, q, e2, ins, e3);
            lemma_replace_twice(h, q, e2, e3);
            lemma_replace_twice(h, q, e3, e3);
            let r2 = replace_at(r, q, e3);
            assert(r2 == replace_at(h, q, e3));
            lemma_obs_refl(cb[j]);
            assert forall|x: int| j + 1 <= x < cur2.len() implies #[trigger] cur2[x] < ca.len() && node_at(r2, q)->0->children[x] == ca[cur2[x] as int] by {
                assert(cur2[x] == cur[x - 1]);
                assert(e3->children[x] == c[x - 1]);
            }
            assert forall|x: int| 0 <= x < j + 1 implies obs_eq(#[trigger] node_at(r2, q)->0->children[x], cb[x]) by {
                if x < j {
                    assert(e3->children[x] == c[x]);
                }
            }
            assert(place_state(r2, h, q, e, ca, cb, cur2, j + 1));
            lemma_place_run(r2, h, q, e, ca, cb, cur2, j + 1);
            lemma_run_clean_add(r, seq![ins], rest);
        }
    }
}

proof fn lemma_keyed_run(h: VNode, q: Seq<usize>, e: VNode, ca: Seq<VNode>, cb: Seq<VNode>)
    requires
        node_at(h, q) == Some(e),
        e is Element,
        e->children == ca,
        keyed_mode(ca, cb),
        ca.len() <= usize::MAX / 2,
        cb.len() <= usize::MAX / 2,
        forall|i: int| 0 <= i < ca.len() ==> distinct_attrs(#[trigger] ca[i]),
        forall|i: int| 0 <= i < cb.len() ==> distinct_attrs(#[trigger] cb[i]),
    ensures
        run_clean(h, child_part(q, ca, cb)) is Some,
        children_done(run_clean(h, child_part(q, ca, cb))->0, h, q, e, cb),
    decreases ca, cb.len() + 1,
{
    let n = ca.len() as int;
    let kr = keyed_removes(q, ca, cb, 0);
    let cur0 = surviving(ca, cb, n);
    let pl = keyed_place(q, ca, cb, cur0, 0);
    assert(child_part(q, ca, cb) == kr + pl);
    lemma_keyed_removes_run(q, e, ca, cb, 0);
    lemma_survivors_split(ca, cb, n);
    assert(survivors_from(ca, cb, n) =~= Seq::<usize>::empty());
    assert(cur0 =~= survivors_from(ca, cb, 0));
    lemma_survivors_bounds(ca, cb, 0);
    let e1 = with_children(e, ca.take(0) + pick(ca, cur0));
    assert(ca.take(0) + pick(ca, cur0) =~= pick(ca, cur0));
    lemma_keyed_removes_kind(q, ca, cb, 0);
    lemma_child_ops_path(kr, q);
    lemma_run_local_lift(h, q, kr, e);
    let r1 = replace_at(h, q, e1);
    lemma_replace_twice(h, q, e1, e1);
    assert(place_state(r1, h, q, e, ca, cb, cur0, 0));
    lemma_place_run(r1, h, q, e, ca, cb, cur0, 0);
    lemma_run_clean_add(h, kr, pl);
}

/// Applying `diff(a, b)` to a host tree that holds `a` succeeds at every
/// step and leaves a host tree that looks like `b` (same tags, texts,
/// attribute pairs and child order), for trees whose elements have
/// attributes with distinct names.
pub proof fn lemma_round_trip(a: VNode, b: VNode)
    requires
        distinct_attrs(a),
        distinct_attrs(b),
    ensures
        run_all(a, diff_spec(a, b, Seq::empty())).aborted is None,
        run_all(a, diff_spec(a, b, Seq::empty())).failures == Seq::<PatchError>::empty(),
        obs_eq(run_all(a, diff_spec(a, b, Seq::empty())).host, b),
{
    let q = Seq::<usize>::empty();
    assert(node_at(a, q) == Some(a));
    lemma_round_trip_at(a, q, a, b);
    lemma_run_clean_all(a, diff_spec(a, b, q));
    let r = run_clean(a, diff_spec(a, b, q))->0;
    assert(node_at(r, q) == Some(r));
}

} // verus!
