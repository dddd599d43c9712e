use vstd::prelude::*;

use crate::diff::{
    attr_ops, attr_removals, attr_sets, common_ops, diff_spec, find_key, has_name, inserts,
    is_volatile, keyed_mode, keyed_place, keyed_removes, surviving, tail_removes,
};
use crate::node::VNode;
use crate::patch::{op_path, PatchModel};

verus! {

/// An attribute edit addressed to the node at `path` itself.
pub open spec fn is_attr_op_at(op: PatchModel, path: Seq<usize>) -> bool {
    match op {
        PatchModel::SetAttribute { path: p, .. } => p == path,
        PatchModel::RemoveAttribute { path: p, .. } => p == path,
        _ => false,
    }
}

/// A child-list edit of the node at `path`.
pub open spec fn is_child_op_at(op: PatchModel, path: Seq<usize>) -> bool {
    match op {
        PatchModel::InsertChild { path: p, .. } => p == path,
        PatchModel::RemoveChild { path: p, .. } => p == path,
        PatchModel::MoveChild { path: p, .. } => p == path,
        _ => false,
    }
}

/// How many operations of `s` are attribute edits of the node at `path`.
pub open spec fn count_attr_ops_at(s: Seq<PatchModel>, path: Seq<usize>) -> nat
    decreases s.len(),
{
    if s.len() == 0 {
        0
    } else {
        count_attr_ops_at(s.drop_last(), path) + if is_attr_op_at(s.last(), path) {
            1nat
        } else {
            0nat
        }
    }
}

/// Every operation of `s` addresses a node at depth `d` or deeper.
pub open spec fn at_least_depth(s: Seq<PatchModel>, d: int) -> bool {
    forall|k: int| 0 <= k < s.len() ==> (#[trigger] op_path(s[k])).len() >= d
}

pub open spec fn all_child_ops_at(s: Seq<PatchModel>, path: Seq<usize>) -> bool {
    forall|k: int| 0 <= k < s.len() ==> #[trigger] is_child_op_at(s[k], path)
}

pub open spec fn all_attr_ops_at(s: Seq<PatchModel>, path: Seq<usize>) -> bool {
    forall|k: int| 0 <= k < s.len() ==> #[trigger] is_attr_op_at(s[k], path)
}

pub open spec fn no_attr_ops_at(s: Seq<PatchModel>, path: Seq<usize>) -> bool {
    forall|k: int| 0 <= k < s.len() ==> !(#[trigger] is_attr_op_at(s[k], path))
}

proof fn lemma_depth_add(s1: Seq<PatchModel>, s2: Seq<PatchModel>, d: int)
    requires
        at_least_depth(s1, d),
        at_least_depth(s2, d),
    ensures
        at_least_depth(s1 + s2, d),
{
    assert forall|k: int| 0 <= k < (s1 + s2).len() implies (#[trigger] op_path((s1 + s2)[k])).len()
        >= d by {
        if k < s1.len() {
            assert((s1 + s2)[k] == s1[k]);
        } else {
            assert((s1 + s2)[k] == s2[k - s1.len()]);
        }
    }
}

proof fn lemma_free_add(s1: Seq<PatchModel>, s2: Seq<PatchModel>, path: Seq<usize>)
    requires
        no_attr_ops_at(s1, path),
        no_attr_ops_at(s2, path),
    ensures
        no_attr_ops_at(s1 + s2, path),
{
    assert forall|k: int| 0 <= k < (s1 + s2).len() implies !(#[trigger] is_attr_op_at(
        (s1 + s2)[k],
        path,
    )) by {
        if k < s1.len() {
            assert((s1 + s2)[k] == s1[k]);
        } else {
            assert((s1 + s2)[k] == s2[k - s1.len()]);
        }
    }
}

proof fn lemma_child_ops(s: Seq<PatchModel>, path: Seq<usize>)
    requires
        all_child_ops_at(s, path),
    ensures
        at_least_depth(s, path.len() as int),
        no_attr_ops_at(s, path),
{
    assert forall|k: int| 0 <= k < s.len() implies (#[trigger] op_path(s[k])).len() >= path.len() by {
        assert(is_child_op_at(s[k], path));
    }
    assert forall|k: int| 0 <= k < s.len() implies !(#[trigger] is_attr_op_at(s[k], path)) by {
        assert(is_child_op_at(s[k], path));
    }
}

proof fn lemma_attr_ops_depth(s: Seq<PatchModel>, path: Seq<usize>)
    requires
        all_attr_ops_at(s, path),
    ensures
        at_least_depth(s, path.len() as int),
{
    assert forall|k: int| 0 <= k < s.len() implies (#[trigger] op_path(s[k])).len() >= path.len() by {
        assert(is_attr_op_at(s[k], path));
    }
}

/// A sequence of edits all deeper than `path` holds no attribute edit of the
/// node at `path`.
proof fn lemma_deeper_free(s: Seq<PatchModel>, path: Seq<usize>)
    requires
        at_least_depth(s, path.len() + 1int),
    ensures
        no_attr_ops_at(s, path),
{
    assert forall|k: int| 0 <= k < s.len() implies !(#[trigger] is_attr_op_at(s[k], path)) by {
        assert(op_path(s[k]).len() >= path.len() + 1);
    }
}

proof fn lemma_count_add(s1: Seq<PatchModel>, s2: Seq<PatchModel>, path: Seq<usize>)
    ensures
        count_attr_ops_at(s1 + s2, path) == count_attr_ops_at(s1, path) + count_attr_ops_at(
            s2,
            path,
        ),
    decreases s2.len(),
{
    if s2.len() == 0 {
        assert(s1 + s2 =~= s1);
    } else {
        lemma_count_add(s1, s2.drop_last(), path);
        assert((s1 + s2).drop_last() =~= s1 + s2.drop_last());
    }
}

proof fn lemma_count_none(s: Seq<PatchModel>, path: Seq<usize>)
    requires
        no_attr_ops_at(s, path),
    ensures
        count_attr_ops_at(s, path) == 0,
    decreases s.len(),
{
    if s.len() > 0 {
        lemma_count_none(s.drop_last(), path);
    }
}

proof fn lemma_count_all(s: Seq<PatchModel>, path: Seq<usize>)
    requires
        all_attr_ops_at(s, path),
    ensures
        count_attr_ops_at(s, path) == s.len(),
    decreases s.len(),
{
    if s.len() > 0 {
        lemma_count_all(s.drop_last(), path);
    }
}

pub(crate) proof fn lemma_tail_removes_kind(path: Seq<usize>, n: int, hi: int)
    ensures
        all_child_ops_at(tail_removes(path, n, hi), path),
    decreases hi - n,
{
    if n < hi && n >= 0 {
        lemma_tail_removes_kind(path, n + 1, hi);
    }
}

pub(crate) proof fn lemma_inserts_kind(path: Seq<usize>, next: Seq<VNode>, lo: int, n: int)
    ensures
        all_child_ops_at(inserts(path, next, lo, n), path),
    decreases n,
{
    if !(n <= lo || n > next.len() || n <= 0) {
        lemma_inserts_kind(path, next, lo, n - 1);
    }
}

pub(crate) proof fn lemma_keyed_removes_kind(path: Seq<usize>, prev: Seq<VNode>, next: Seq<VNode>, i: int)
    ensures
        all_child_ops_at(keyed_removes(path, prev, next, i), path),
    decreases prev.len() - i,
{
    if 0 <= i < prev.len() {
        lemma_keyed_removes_kind(path, prev, next, i + 1);
    }
}

pub(crate) proof fn lemma_attr_kind(
    path: Seq<usize>,
    prev: Seq<(Seq<char>, Seq<char>)>,
    next: Seq<(Seq<char>, Seq<char>)>,
)
    ensures
        all_attr_ops_at(attr_ops(path, prev, next), path),
{
    assert forall|n: int| #![auto] all_attr_ops_at(attr_removals(path, prev, next, n), path) by {
        lemma_removals_kind(path, prev, next, n);
    }
    assert forall|n: int| #![auto] all_attr_ops_at(attr_sets(path, prev, next, n), path) by {
        lemma_sets_kind(path, prev, next, n);
    }
}

proof fn lemma_removals_kind(
    path: Seq<usize>,
    prev: Seq<(Seq<char>, Seq<char>)>,
    next: Seq<(Seq<char>, Seq<char>)>,
    n: int,
)
    ensures
        all_attr_ops_at(attr_removals(path, prev, next, n), path),
    decreases n,
{
    if !(n <= 0 || n > prev.len()) {
        lemma_removals_kind(path, prev, next, n - 1);
    }
}

proof fn lemma_sets_kind(
    path: Seq<usize>,
    prev: Seq<(Seq<char>, Seq<char>)>,
    next: Seq<(Seq<char>, Seq<char>)>,
    n: int,
)
    ensures
        all_attr_ops_at(attr_sets(path, prev, next, n), path),
    decreases n,
{
    if !(n <= 0 || n > next.len()) {
        lemma_sets_kind(path, prev, next, n - 1);
    }
}

proof fn lemma_depth_common(path: Seq<usize>, prev: Seq<VNode>, next: Seq<VNode>, n: int)
    ensures
        at_least_depth(common_ops(path, prev, next, n), path.len() + 1int),
    decreases prev, n,
{
    if !(n <= 0 || n > prev.len() || n > next.len()) {
        lemma_depth_common(path, prev, next, n - 1);
        lemma_depth(prev[n - 1], next[n - 1], path.push((n - 1) as usize));
        lemma_depth_add(
            common_ops(path, prev, next, n - 1),
            diff_spec(prev[n - 1], next[n - 1], path.push((n - 1) as usize)),
            path.len() + 1int,
        );
    }
}

proof fn lemma_place_free(
    path: Seq<usize>,
    prev: Seq<VNode>,
    next: Seq<VNode>,
    cur: Seq<usize>,
    j: int,
)
    ensures
        at_least_depth(keyed_place(path, prev, next, cur, j), path.len() as int),
        no_attr_ops_at(keyed_place(path, prev, next, cur, j), path),
    decreases prev, next.len() - j,
{
    if j < 0 || j >= next.len() {
        lemma_tail_removes_kind(path, next.len() as int, cur.len() as int);
        lemma_child_ops(tail_removes(path, next.len() as int, cur.len() as int), path);
    } else {
        let p = find_key(prev, cur, crate::diff::node_key(next[j]), j);
        if 0 <= p < cur.len() && cur[p] < prev.len() {
            let i = cur[p] as int;
            let mv: Seq<PatchModel> = if p != j {
                seq![PatchModel::MoveChild { path, from: p as usize, to: j as usize }]
            } else {
                Seq::empty()
            };
            let d = diff_spec(prev[i], next[j], path.push(j as usize));
            let rest = keyed_place(path, prev, next, cur.remove(p).insert(j, cur[p]), j + 1);
            lemma_depth(prev[i], next[j], path.push(j as usize));
            lemma_place_free(path, prev, next, cur.remove(p).insert(j, cur[p]), j + 1);
            lemma_deeper_free(d, path);
            assert(all_child_ops_at(mv, path));
            lemma_child_ops(mv, path);
            assert forall|k: int| 0 <= k < d.len() implies (#[trigger] op_path(d[k])).len()
                >= path.len() by {
                assert(op_path(d[k]).len() >= path.len() + 1);
            }
            lemma_depth_add(mv, d, path.len() as int);
            lemma_depth_add(mv + d, rest, path.len() as int);
            lemma_free_add(mv, d, path);
            lemma_free_add(mv + d, rest, path);
        } else {
            let ins = seq![PatchModel::InsertChild { path, index: j as usize, node: next[j] }];
            let rest = keyed_place(path, prev, next, cur.insert(j, prev.len() as usize), j + 1);
            lemma_place_free(path, prev, next, cur.insert(j, prev.len() as usize), j + 1);
            assert(all_child_ops_at(ins, path));
            lemma_child_ops(ins, path);
            lemma_depth_add(ins, rest, path.len() as int);
            lemma_free_add(ins, rest, path);
        }
    }
}

/// Every operation of a diff addresses the node at `path` or one below it.
proof fn lemma_depth(a: VNode, b: VNode, path: Seq<usize>)
    ensures
        at_least_depth(diff_spec(a, b, path), path.len() as int),
    decreases a, 0int,
{
    match a {
        VNode::Element { tag: ta, attrs: aa, children: ca, key: _ } => match b {
            VNode::Element { tag: tb, attrs: ab, children: cb, key: _ } => if ta == tb {
                lemma_child_part(path, ca, cb);
                lemma_attr_kind(path, aa, ab);
                lemma_attr_ops_depth(attr_ops(path, aa, ab), path);
                lemma_depth_add(attr_ops(path, aa, ab), child_part(path, ca, cb), path.len() as int);
                assert(diff_spec(a, b, path) == attr_ops(path, aa, ab) + child_part(path, ca, cb));
            },
            _ => {},
        },
        _ => {},
    }
}

/// The edits of a diff of two elements of one tag that follow the attribute
/// edits: none of them is an attribute edit of the element itself.
pub open spec fn child_part(path: Seq<usize>, ca: Seq<VNode>, cb: Seq<VNode>) -> Seq<PatchModel> {
    if keyed_mode(ca, cb) {
        keyed_removes(path, ca, cb, 0) + keyed_place(
            path,
            ca,
            cb,
            surviving(ca, cb, ca.len() as int),
            0,
        )
    } else {
        common_ops(
            path,
            ca,
            cb,
            if ca.len() < cb.len() {
                ca.len() as int
            } else {
                cb.len() as int
            },
        ) + if cb.len() > ca.len() {
            inserts(path, cb, ca.len() as int, cb.len() as int)
        } else {
            tail_removes(path, cb.len() as int, ca.len() as int)
        }
    }
}

proof fn lemma_child_part(path: Seq<usize>, ca: Seq<VNode>, cb: Seq<VNode>)
    ensures
        at_least_depth(child_part(path, ca, cb), path.len() as int),
        no_attr_ops_at(child_part(path, ca, cb), path),
    decreases ca, cb.len() + 1,
{
    if keyed_mode(ca, cb) {
        let r = keyed_removes(path, ca, cb, 0);
        let pl = keyed_place(path, ca, cb, surviving(ca, cb, ca.len() as int), 0);
        lemma_keyed_removes_kind(path, ca, cb, 0);
        lemma_child_ops(r, path);
        lemma_place_free(path, ca, cb, surviving(ca, cb, ca.len() as int), 0);
        lemma_depth_add(r, pl, path.len() as int);
        lemma_free_add(r, pl, path);
    } else {
        let m = if ca.len() < cb.len() {
            ca.len() as int
        } else {
            cb.len() as int
        };
        let c = common_ops(path, ca, cb, m);
        let t = if cb.len() > ca.len() {
            inserts(path, cb, ca.len() as int, cb.len() as int)
        } else {
            tail_removes(path, cb.len() as int, ca.len() as int)
        };
        lemma_depth_common(path, ca, cb, m);
        lemma_deeper_free(c, path);
        assert forall|k: int| 0 <= k < c.len() implies (#[trigger] op_path(c[k])).len()
            >= path.len() by {
            assert(op_path(c[k]).len() >= path.len() + 1);
        }
        lemma_inserts_kind(path, cb, ca.len() as int, cb.len() as int);
        lemma_tail_removes_kind(path, cb.len() as int, ca.len() as int);
        lemma_child_ops(t, path);
        lemma_depth_add(c, t, path.len() as int);
        lemma_free_add(c, t, path);
    }
}

/// Previous attributes whose name the next attributes lack.
pub open spec fn name_gone(next: Seq<(Seq<char>, Seq<char>)>) -> spec_fn((Seq<char>, Seq<char>)) -> bool {
    |x: (Seq<char>, Seq<char>)| !has_name(next, x.0)
}

/// Next attributes (name and value) that the previous attributes lack.
pub open spec fn pair_new(prev: Seq<(Seq<char>, Seq<char>)>) -> spec_fn((Seq<char>, Seq<char>)) -> bool {
    |x: (Seq<char>, Seq<char>)| !prev.contains(x)
}

/// Next attributes that the previous attributes hold too, under a volatile
/// name.
pub open spec fn volatile_kept(prev: Seq<(Seq<char>, Seq<char>)>) -> spec_fn((Seq<char>, Seq<char>)) -> bool {
    |x: (Seq<char>, Seq<char>)| prev.contains(x) && is_volatile(x.0)
}

proof fn lemma_removals_len(
    path: Seq<usize>,
    prev: Seq<(Seq<char>, Seq<char>)>,
    next: Seq<(Seq<char>, Seq<char>)>,
    n: int,
)
    requires
        0 <= n <= prev.len(),
    ensures
        attr_removals(path, prev, next, n).len() == prev.take(n).filter(name_gone(next)).len(),
    decreases n,
{
    reveal(Seq::filter);
    if n > 0 {
        lemma_removals_len(path, prev, next, n - 1);
        assert(prev.take(n).drop_last() =~= prev.take(n - 1));
    }
}

proof fn lemma_sets_len(
    path: Seq<usize>,
    prev: Seq<(Seq<char>, Seq<char>)>,
    next: Seq<(Seq<char>, Seq<char>)>,
    n: int,
)
    requires
        0 <= n <= next.len(),
    ensures
        attr_sets(path, prev, next, n).len() == next.take(n).filter(pair_new(prev)).len()
            + next.take(n).filter(volatile_kept(prev)).len(),
    decreases n,
{
    reveal(Seq::filter);
    if n > 0 {
        lemma_sets_len(path, prev, next, n - 1);
        assert(next.take(n).drop_last() =~= next.take(n - 1));
    }
}

/// Between two elements of one tag, the diff holds exactly one edit of the
/// element's own attributes for each previous attribute whose name is gone,
/// for each next attribute (name and value) that is new, and for each
/// volatile attribute that both hold, and no other.
pub proof fn lemma_attr_minimality(a: VNode, b: VNode, path: Seq<usize>)
    requires
        a is Element,
        b is Element,
        a->tag == b->tag,
    ensures
        count_attr_ops_at(diff_spec(a, b, path), path) == a->attrs.filter(name_gone(b->attrs)).len()
            + b->attrs.filter(pair_new(a->attrs)).len() + b->attrs.filter(
            volatile_kept(a->attrs),
        ).len(),
{
    let aa = a->attrs;
    let ab = b->attrs;
    let ca = a->children;
    let cb = b->children;
    assert(diff_spec(a, b, path) == attr_ops(path, aa, ab) + child_part(path, ca, cb));
    lemma_count_add(attr_ops(path, aa, ab), child_part(path, ca, cb), path);
    lemma_attr_kind(path, aa, ab);
    lemma_count_all(attr_ops(path, aa, ab), path);
    lemma_child_part(path, ca, cb);
    lemma_count_none(child_part(path, ca, cb), path);
    lemma_removals_len(path, aa, ab, aa.len() as int);
    lemma_sets_len(path, aa, ab, ab.len() as int);
    assert(aa.take(aa.len() as int) =~= aa);
    assert(ab.take(ab.len() as int) =~= ab);
}

} // verus!
