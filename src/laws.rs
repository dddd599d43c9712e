use vstd::prelude::*;

use crate::diff::{
    all_keyed, attr_ops, attr_removals, attr_sets, common_ops, diff_spec, find_key, has_name,
    is_volatile, key_in, keyed_mode, keyed_place, keyed_removes, needs_set, node_key, surviving,
};
use crate::node::{lemma_view_sized, sized, VNode, VirtualDomNode};
use crate::patch::PatchModel;

verus! {

/// No attribute anywhere in the tree has a volatile name.
pub open spec fn no_volatile(n: VNode) -> bool
    decreases n,
{
    match n {
        VNode::Element { attrs, children, .. } => (forall|i: int|
            0 <= i < attrs.len() ==> !is_volatile(#[trigger] attrs[i].0)) && (forall|i: int|
            0 <= i < children.len() ==> no_volatile(#[trigger] children[i])),
        _ => true,
    }
}

proof fn lemma_attrs_self(path: Seq<usize>, a: Seq<(Seq<char>, Seq<char>)>)
    requires
        forall|i: int| 0 <= i < a.len() ==> !is_volatile(#[trigger] a[i].0),
    ensures
        attr_ops(path, a, a) == Seq::<PatchModel>::empty(),
{
    assert forall|n: int| 0 <= n <= a.len() implies attr_removals(path, a, a, n)
        == Seq::<PatchModel>::empty() by {
        lemma_removals_self(path, a, n);
    }
    assert forall|n: int| 0 <= n <= a.len() implies attr_sets(path, a, a, n)
        == Seq::<PatchModel>::empty() by {
        lemma_sets_self(path, a, n);
    }
    assert(attr_ops(path, a, a) =~= Seq::<PatchModel>::empty());
}

proof fn lemma_removals_self(path: Seq<usize>, a: Seq<(Seq<char>, Seq<char>)>, n: int)
    requires
        0 <= n <= a.len(),
    ensures
        attr_removals(path, a, a, n) == Seq::<PatchModel>::empty(),
    decreases n,
{
    if n > 0 {
        lemma_removals_self(path, a, n - 1);
        assert(has_name(a, a[n - 1].0));
        assert(attr_removals(path, a, a, n) =~= Seq::<PatchModel>::empty());
    }
}

proof fn lemma_sets_self(path: Seq<usize>, a: Seq<(Seq<char>, Seq<char>)>, n: int)
    requires
        0 <= n <= a.len(),
        forall|i: int| 0 <= i < a.len() ==> !is_volatile(#[trigger] a[i].0),
    ensures
        attr_sets(path, a, a, n) == Seq::<PatchModel>::empty(),
    decreases n,
{
    if n > 0 {
        lemma_sets_self(path, a, n - 1);
        assert(a.contains(a[n - 1]));
        assert(!needs_set(a, a[n - 1]));
        assert(attr_sets(path, a, a, n) =~= Seq::<PatchModel>::empty());
    }
}

proof fn lemma_keyed_removes_self(path: Seq<usize>, c: Seq<VNode>, i: int)
    requires
        0 <= i <= c.len(),
    ensures
        keyed_removes(path, c, c, i) == Seq::<PatchModel>::empty(),
    decreases c.len() - i,
{
    if i < c.len() {
        lemma_keyed_removes_self(path, c, i + 1);
        assert(key_in(c, node_key(c[i])));
        assert(keyed_removes(path, c, c, i) =~= Seq::<PatchModel>::empty());
    }
}

proof fn lemma_surviving_self(c: Seq<VNode>, n: int)
    requires
        0 <= n <= c.len(),
    ensures
        surviving(c, c, n) == Seq::new(n as nat, |i: int| i as usize),
    decreases n,
{
    if n > 0 {
        lemma_surviving_self(c, n - 1);
        assert(key_in(c, node_key(c[n - 1])));
        assert(surviving(c, c, n) =~= Seq::new(n as nat, |i: int| i as usize));
    }
}

proof fn lemma_common_self(path: Seq<usize>, c: Seq<VNode>, n: int)
    requires
        0 <= n <= c.len(),
        forall|i: int| 0 <= i < c.len() ==> no_volatile(#[trigger] c[i]),
        forall|i: int| 0 <= i < c.len() ==> sized(#[trigger] c[i]),
    ensures
        common_ops(path, c, c, n) == Seq::<PatchModel>::empty(),
    decreases c, n,
{
    if n > 0 {
        lemma_common_self(path, c, n - 1);
        lemma_diff_self(c[n - 1], path.push((n - 1) as usize));
        assert(common_ops(path, c, c, n) =~= Seq::<PatchModel>::empty());
    }
}

proof fn lemma_place_self(path: Seq<usize>, c: Seq<VNode>, j: int)
    requires
        0 <= j <= c.len(),
        c.len() <= usize::MAX,
        forall|i: int| 0 <= i < c.len() ==> no_volatile(#[trigger] c[i]),
        forall|i: int| 0 <= i < c.len() ==> sized(#[trigger] c[i]),
    ensures
        keyed_place(path, c, c, Seq::new(c.len(), |i: int| i as usize), j) == Seq::<
            PatchModel,
        >::empty(),
    decreases c, c.len() - j,
{
    let cur = Seq::new(c.len(), |i: int| i as usize);
    if j < c.len() {
        assert(cur[j] == j as usize);
        assert(find_key(c, cur, node_key(c[j]), j) == j);
        lemma_place_self(path, c, j + 1);
        lemma_diff_self(c[j], path.push(j as usize));
        assert(cur.remove(j).insert(j, cur[j]) =~= cur);
        assert(keyed_place(path, c, c, cur, j) =~= Seq::<PatchModel>::empty());
    }
}

/// Diffing a tree against itself yields an empty script, for every tree in
/// which no attribute has a volatile name (those are re-set on every diff).
pub proof fn lemma_diff_self(t: VNode, path: Seq<usize>)
    requires
        sized(t),
        no_volatile(t),
    ensures
        diff_spec(t, t, path) == Seq::<PatchModel>::empty(),
    decreases t, 0int,
{
    match t {
        VNode::Element { tag, attrs, children, key } => {
            lemma_attrs_self(path, attrs);
            if keyed_mode(children, children) {
                lemma_keyed_removes_self(path, children, 0);
                lemma_surviving_self(children, children.len() as int);
                lemma_place_self(path, children, 0);
            } else {
                lemma_common_self(path, children, children.len() as int);
            }
            assert(diff_spec(t, t, path) =~= Seq::<PatchModel>::empty());
        },
        _ => {},
    }
}

/// The keys of the nodes of `s` are pairwise distinct.
pub open spec fn unique_keys(s: Seq<VNode>) -> bool {
    forall|i: int, j: int|
        0 <= i < j < s.len() ==> node_key(#[trigger] s[i]) != node_key(#[trigger] s[j])
}

/// `next` holds the nodes of `prev` in another order: as many, and each node
/// of either list stands in the other.
pub open spec fn is_reordering(prev: Seq<VNode>, next: Seq<VNode>) -> bool {
    &&& prev.len() == next.len()
    &&& forall|i: int| 0 <= i < prev.len() ==> exists|j: int| 0 <= j < next.len() && next[j] == #[trigger] prev[i]
    &&& forall|j: int| 0 <= j < next.len() ==> exists|i: int| 0 <= i < prev.len() && prev[i] == #[trigger] next[j]
}

pub open spec fn all_moves(s: Seq<PatchModel>) -> bool {
    forall|k: int| 0 <= k < s.len() ==> (#[trigger] s[k]) is MoveChild
}

proof fn lemma_keyed_removes_none(path: Seq<usize>, prev: Seq<VNode>, next: Seq<VNode>, i: int)
    requires
        0 <= i <= prev.len(),
        forall|q: int| 0 <= q < prev.len() ==> key_in(next, node_key(#[trigger] prev[q])),
    ensures
        keyed_removes(path, prev, next, i) == Seq::<PatchModel>::empty(),
    decreases prev.len() - i,
{
    if i < prev.len() {
        lemma_keyed_removes_none(path, prev, next, i + 1);
        assert(key_in(next, node_key(prev[i])));
        assert(keyed_removes(path, prev, next, i) =~= Seq::<PatchModel>::empty());
    }
}

proof fn lemma_surviving_all(prev: Seq<VNode>, next: Seq<VNode>, n: int)
    requires
        0 <= n <= prev.len(),
        forall|q: int| 0 <= q < prev.len() ==> key_in(next, node_key(#[trigger] prev[q])),
    ensures
        surviving(prev, next, n) == Seq::new(n as nat, |i: int| i as usize),
    decreases n,
{
    if n > 0 {
        lemma_surviving_all(prev, next, n - 1);
        assert(key_in(next, node_key(prev[n - 1])));
        assert(surviving(prev, next, n) =~= Seq::new(n as nat, |i: int| i as usize));
    }
}

proof fn lemma_find_at(prev: Seq<VNode>, cur: Seq<usize>, k: Option<Seq<char>>, q: int, t: int)
    requires
        0 <= q <= t < cur.len(),
        cur[t] < prev.len(),
        node_key(prev[cur[t] as int]) == k,
        forall|r: int| q <= r < t ==> !(cur[r] < prev.len() && node_key(prev[#[trigger] cur[r] as int]) == k),
    ensures
        find_key(prev, cur, k, q) == t,
    decreases t - q,
{
    if q < t {
        lemma_find_at(prev, cur, k, q + 1, t);
    }
}

/// Some position of `cur` holds `i`.
pub open spec fn holds_index(cur: Seq<usize>, i: int) -> bool {
    exists|q: int| 0 <= q < cur.len() && cur[q] == i
}

/// The state of the keyed placement over a reordering: `cur` is a
/// permutation of the previous indices whose first `j` entries already match
/// the next children.
pub open spec fn placement_state(prev: Seq<VNode>, next: Seq<VNode>, cur: Seq<usize>, j: int) -> bool {
    &&& cur.len() == prev.len()
    &&& 0 <= j <= cur.len()
    &&& forall|q: int| 0 <= q < cur.len() ==> #[trigger] cur[q] < prev.len()
    &&& forall|q1: int, q2: int| 0 <= q1 < q2 < cur.len() ==> #[trigger] cur[q1] != #[trigger] cur[q2]
    &&& forall|i: int| 0 <= i < prev.len() ==> #[trigger] holds_index(cur, i)
    &&& forall|q: int| 0 <= q < j ==> node_key(prev[#[trigger] cur[q] as int]) == node_key(next[q])
}

proof fn lemma_place_moves(path: Seq<usize>, prev: Seq<VNode>, next: Seq<VNode>, cur: Seq<usize>, j: int)
    requires
        prev.len() <= usize::MAX,
        is_reordering(prev, next),
        unique_keys(prev),
        unique_keys(next),
        forall|i: int| 0 <= i < prev.len() ==> no_volatile(#[trigger] prev[i]),
        forall|i: int| 0 <= i < prev.len() ==> sized(#[trigger] prev[i]),
        placement_state(prev, next, cur, j),
    ensures
        all_moves(keyed_place(path, prev, next, cur, j)),
    decreases next.len() - j,
{
    let n = prev.len() as int;
    if j < n {
        let istar = choose|i: int| 0 <= i < prev.len() && prev[i] == next[j];
        let k = node_key(next[j]);
        assert(holds_index(cur, istar));
        let qstar = choose|q: int| 0 <= q < cur.len() && cur[q] == istar;
        assert(cur[qstar] == istar);
        if qstar < j {
            assert(node_key(prev[cur[qstar] as int]) == node_key(next[qstar]));
            assert(false);
        }
        assert forall|r: int| j <= r < qstar implies !(cur[r] < prev.len() && node_key(
            prev[#[trigger] cur[r] as int],
        ) == k) by {
            assert(cur[r] != cur[qstar]);
        }
        lemma_find_at(prev, cur, k, j, qstar);
        let p = qstar;
        let cur2 = cur.remove(p).insert(j, cur[p]);
        assert(cur2.len() == n);
        assert forall|q: int| 0 <= q < n implies #[trigger] cur2[q] == if q < j {
            cur[q]
        } else if q == j {
            cur[p]
        } else if q <= p {
            cur[q - 1]
        } else {
            cur[q]
        } by {}
        assert forall|q1: int, q2: int| 0 <= q1 < q2 < n implies #[trigger] cur2[q1]
            != #[trigger] cur2[q2] by {
            let o1 = if q1 < j {
                q1
            } else if q1 == j {
                p
            } else if q1 <= p {
                q1 - 1
            } else {
                q1
            };
            let o2 = if q2 < j {
                q2
            } else if q2 == j {
                p
            } else if q2 <= p {
                q2 - 1
            } else {
                q2
            };
            assert(cur2[q1] == cur[o1]);
            assert(cur2[q2] == cur[o2]);
            assert(o1 != o2);
        }
        assert forall|i: int| 0 <= i < n implies #[trigger] holds_index(cur2, i) by {
            assert(holds_index(cur, i));
            let q0 = choose|q: int| 0 <= q < cur.len() && cur[q] == i;
            let q1 = if q0 < j {
                q0
            } else if q0 == p {
                j
            } else if q0 < p {
                q0 + 1
            } else {
                q0
            };
            assert(cur2[q1] == i);
        }
        assert(placement_state(prev, next, cur2, j + 1));
        lemma_place_moves(path, prev, next, cur2, j + 1);
        lemma_diff_self(prev[istar], path.push(j as usize));
        let mv: Seq<PatchModel> = if p != j {
            seq![PatchModel::MoveChild { path, from: p as usize, to: j as usize }]
        } else {
            Seq::empty()
        };
        let rest = keyed_place(path, prev, next, cur2, j + 1);
        assert(keyed_place(path, prev, next, cur, j) == mv + Seq::<PatchModel>::empty() + rest);
        assert(mv + Seq::<PatchModel>::empty() + rest =~= mv + rest);
        assert forall|x: int| 0 <= x < (mv + rest).len() implies (#[trigger] (mv + rest)[x]) is MoveChild by {
            if x < mv.len() {
                assert((mv + rest)[x] == mv[x]);
            } else {
                assert((mv + rest)[x] == rest[x - mv.len()]);
            }
        }
    } else {
        assert(keyed_place(path, prev, next, cur, j) =~= Seq::<PatchModel>::empty());
    }
}

/// Reordering the keyed children of an element, without adding or removing
/// any, gives a script of `MoveChild` operations alone (no `Replace`,
/// `InsertChild` or `RemoveChild`), when the keys are unique, the element
/// keeps its tag and attributes, and no attribute has a volatile name.
pub proof fn lemma_keyed_stability(a: VNode, b: VNode, path: Seq<usize>)
    requires
        sized(a),
        no_volatile(a),
        a is Element,
        b is Element,
        a->tag == b->tag,
        a->attrs == b->attrs,
        all_keyed(a->children),
        unique_keys(a->children),
        unique_keys(b->children),
        is_reordering(a->children, b->children),
    ensures
        all_moves(diff_spec(a, b, path)),
{
    let ca = a->children;
    let cb = b->children;
    let n = ca.len() as int;
    lemma_attrs_self(path, a->attrs);
    assert forall|q: int| 0 <= q < n implies key_in(cb, node_key(#[trigger] ca[q])) by {
        let j = choose|j: int| 0 <= j < cb.len() && cb[j] == ca[q];
        assert(node_key(cb[j]) == node_key(ca[q]));
    }
    if n == 0 {
        assert(diff_spec(a, b, path) =~= Seq::<PatchModel>::empty());
    } else {
        assert forall|j: int| 0 <= j < cb.len() implies (#[trigger] node_key(cb[j])) is Some by {
            let i = choose|i: int| 0 <= i < ca.len() && ca[i] == cb[j];
            assert(node_key(ca[i]) is Some);
        }
        assert(keyed_mode(ca, cb));
        lemma_keyed_removes_none(path, ca, cb, 0);
        lemma_surviving_all(ca, cb, n);
        let cur = Seq::new(n as nat, |i: int| i as usize);
        assert forall|i: int| 0 <= i < n implies #[trigger] holds_index(cur, i) by {
            assert(cur[i] == i);
        }
        assert(placement_state(ca, cb, cur, 0));
        lemma_place_moves(path, ca, cb, cur, 0);
        assert(diff_spec(a, b, path) =~= keyed_place(path, ca, cb, cur, 0));
    }
}

/// Diffing a tree held in memory against itself yields an empty script,
/// when no attribute in it has a volatile name.
pub proof fn lemma_diff_self_tree(t: VirtualDomNode)
    requires
        no_volatile(t@),
    ensures
        diff_spec(t@, t@, Seq::empty()) == Seq::<PatchModel>::empty(),
{
    lemma_view_sized(t);
    lemma_diff_self(t@, Seq::empty());
}

} // verus!
