//! Tree traversal: five iteration orders over the scope tree.
//!
//! An [`Iter`] is produced by [`Explorer::iter`] and yields cursors. The full
//! sequence each order yields is pinned down by a spec function here:
//! [`preorder`] (Walk), [`hierarchy_seq`], [`parents_seq`], the child list
//! itself (Children) and [`siblings_seq`].

use crate::gom::{index_in_parent, lemma_len_bound, Explorer, GOM};
use vstd::prelude::*;

verus! {

broadcast use lemma_len_bound;

/// The traversal orders offered by [`Explorer::iter`]:
/// - `Walk`: pre-order depth-first traversal of the subtree under the start;
/// - `Hierarchy`: the start node and all its ancestors, root-ward;
/// - `Parents`: the strict ancestors only;
/// - `Children`: the direct children, left to right;
/// - `Siblings`: the start node and its subsequent siblings.
#[derive(Clone, Copy, Debug, PartialEq, Eq, Structural)]
pub enum IterRule {
    Walk,
    Hierarchy,
    Parents,
    Children,
    Siblings,
}

/// Pre-order sequence of the subtree rooted at node `i`: the node itself,
/// then its children's subtrees in insertion order.
pub open spec fn preorder<T>(g: GOM<T>, i: int) -> Seq<usize>
    decreases g.len() - i, 1int, 0int,
{
    if 0 <= i < g.len() {
        seq![i as usize] + preorder_list(g, g.children_of(i), i)
    } else {
        Seq::empty()
    }
}

/// Concatenation of the pre-order sequences of the subtrees rooted at the
/// nodes of `cs`, all of which must lie strictly above the lower bound `lb`
/// (in a well-formed arena, children always do).
pub open spec fn preorder_list<T>(g: GOM<T>, cs: Seq<usize>, lb: int) -> Seq<usize>
    decreases g.len() - lb, 0int, cs.len(),
{
    if lb < 0 || lb >= g.len() || cs.len() == 0 {
        Seq::empty()
    } else if lb < cs[0] as int && (cs[0] as int) < g.len() {
        preorder(g, cs[0] as int) + preorder_list(g, cs.drop_first(), lb)
    } else {
        Seq::empty()
    }
}

/// Node `j` lies in the subtree rooted at `r`: the parent chain from `j`
/// reaches `r`.
pub open spec fn in_subtree<T>(g: GOM<T>, r: int, j: int) -> bool
    decreases j,
{
    if j == r {
        0 <= r < g.len()
    } else if 0 <= r < j < g.len() {
        match g.parent_of(j) {
            Some(p) => p < j && in_subtree(g, r, p as int),
            None => false,
        }
    } else {
        false
    }
}

/// Subtree membership is transitive.
proof fn lemma_subtree_trans<T>(g: GOM<T>, a: int, b: int, e: int)
    requires
        in_subtree(g, a, b),
        in_subtree(g, b, e),
    ensures
        in_subtree(g, a, e),
    decreases e,
{
    if e != b {
        let p = g.parent_of(e).unwrap() as int;
        lemma_subtree_trans(g, a, b, p);
    }
}

/// Two roots that share a subtree node are comparable: one contains the other.
proof fn lemma_subtree_comparable<T>(g: GOM<T>, a: int, b: int, e: int)
    requires
        in_subtree(g, a, e),
        in_subtree(g, b, e),
    ensures
        in_subtree(g, a, b) || in_subtree(g, b, a),
    decreases e,
{
    if e == a || e == b {
    } else {
        let p = g.parent_of(e).unwrap() as int;
        lemma_subtree_comparable(g, a, b, p);
    }
}

/// A strict subtree member lies in the subtree of one of the root's children.
proof fn lemma_subtree_step<T>(g: GOM<T>, i: int, e: int)
    requires
        g.wf(),
        in_subtree(g, i, e),
        e != i,
    ensures
        exists|k: int|
            #![auto]
            0 <= k < g.children_of(i).len() && in_subtree(g, g.children_of(i)[k] as int, e),
    decreases e,
{
    let p = g.parent_of(e).unwrap() as int;
    if p == i {
        assert(g.children_of(i).contains(e as usize));
        let k = choose|k: int| 0 <= k < g.children_of(i).len() && g.children_of(i)[k]
            == e as usize;
        assert(in_subtree(g, g.children_of(i)[k] as int, e));
    } else {
        lemma_subtree_step(g, i, p);
        let k = choose|k: int|
            #![auto]
            0 <= k < g.children_of(i).len() && in_subtree(g, g.children_of(i)[k] as int, p);
        let c = g.children_of(i)[k] as int;
        assert(in_subtree(g, c, e));
    }
}

/// The subtrees of two distinct children of one node are disjoint.
proof fn lemma_sibling_subtrees_disjoint<T>(g: GOM<T>, i: int, c1: int, c2: int, e: int)
    requires
        g.wf(),
        g.parent_of(c1) == Some(i as usize),
        g.parent_of(c2) == Some(i as usize),
        0 <= i < g.len(),
        c1 != c2,
        in_subtree(g, c1, e),
    ensures
        !in_subtree(g, c2, e),
{
    if in_subtree(g, c2, e) {
        lemma_subtree_comparable(g, c1, c2, e);
        assert(0 < c1 < g.len());
        assert(0 < c2 < g.len());
        assert(g.parent_of(c1).unwrap() < c1);
        assert(g.parent_of(c2).unwrap() < c2);
        if in_subtree(g, c1, c2) {
            assert(in_subtree(g, c1, i));
            assert(c1 <= i);
        } else {
            assert(in_subtree(g, c2, c1));
            assert(in_subtree(g, c2, i));
            assert(c2 <= i);
        }
    }
}

/// Every valid node lies in the subtree of the root, node 0.
proof fn lemma_root_subtree<T>(g: GOM<T>, j: int)
    requires
        g.wf(),
        0 <= j < g.len(),
    ensures
        in_subtree(g, 0, j),
    decreases j,
{
    if j != 0 {
        lemma_root_subtree(g, g.parent_of(j).unwrap() as int);
    }
}

/// The elements of the pre-order sequence of `i` are exactly the nodes of the
/// subtree rooted at `i`, and the sequence starts with `i` itself.
proof fn lemma_preorder_elems<T>(g: GOM<T>, i: int)
    requires
        g.wf(),
        0 <= i < g.len(),
    ensures
        preorder(g, i).len() >= 1,
        preorder(g, i)[0] == i as usize,
        forall|k: int|
            0 <= k < preorder(g, i).len() ==> in_subtree(
                g,
                i,
                #[trigger] preorder(g, i)[k] as int,
            ),
        forall|e: int| #[trigger] in_subtree(g, i, e) ==> preorder(g, i).contains(e as usize),
    decreases g.len() - i, 1int, 0int,
{
    let cs = g.children_of(i);
    lemma_preorder_list_elems(g, i, cs);
    let l = preorder_list(g, cs, i);
    assert(preorder(g, i) == seq![i as usize] + l);
    assert(preorder(g, i)[0] == i as usize);
    assert forall|k: int|
        0 <= k < preorder(g, i).len() implies in_subtree(
        g,
        i,
        #[trigger] preorder(g, i)[k] as int,
    ) by {
        if k == 0 {
            assert(in_subtree(g, i, i));
        } else {
            assert(preorder(g, i)[k] == l[k - 1]);
            let m = choose|m: int|
                #![auto]
                0 <= m < cs.len() && in_subtree(g, cs[m] as int, l[k - 1] as int);
            let c = cs[m] as int;
            assert(g.children_of(i)[m] == cs[m]);
            assert(i < c < g.len());
            assert(g.parent_of(g.children_of(i)[m] as int) == Some(i as usize));
            assert(g.parent_of(c) == Some(i as usize));
            assert(i as usize as int == i);
            assert(in_subtree(g, i, i));
            assert(in_subtree(g, i, c));
            lemma_subtree_trans(g, i, c, l[k - 1] as int);
        }
    }
    assert forall|e: int| #[trigger] in_subtree(g, i, e) implies preorder(g, i).contains(
        e as usize,
    ) by {
        if e == i {
            assert(preorder(g, i)[0] == e as usize);
        } else {
            lemma_subtree_step(g, i, e);
            let m = choose|m: int|
                #![auto]
                0 <= m < cs.len() && in_subtree(g, cs[m] as int, e);
            assert(l.contains(e as usize));
            let idx = choose|idx: int| 0 <= idx < l.len() && l[idx] == e as usize;
            assert(preorder(g, i)[idx + 1] == e as usize);
        }
    }
}

/// List form of [`lemma_preorder_elems`]: an element of the concatenated
/// pre-orders lies in the subtree of one of the listed children, and each
/// such subtree is covered whole.
proof fn lemma_preorder_list_elems<T>(g: GOM<T>, i: int, cs: Seq<usize>)
    requires
        g.wf(),
        0 <= i < g.len(),
        forall|k: int|
            0 <= k < cs.len() ==> i < (#[trigger] cs[k] as int) && (cs[k] as int) < g.len()
                && g.parent_of(cs[k] as int) == Some(i as usize),
    ensures
        forall|k: int|
            0 <= k < preorder_list(g, cs, i).len() ==> exists|m: int|
                #![auto]
                0 <= m < cs.len() && in_subtree(
                    g,
                    cs[m] as int,
                    #[trigger] preorder_list(g, cs, i)[k] as int,
                ),
        forall|m: int, e: int|
            0 <= m < cs.len() && #[trigger] in_subtree(g, cs[m] as int, e) ==> preorder_list(
                g,
                cs,
                i,
            ).contains(e as usize),
    decreases g.len() - i, 0int, cs.len(),
{
    if cs.len() == 0 {
    } else {
        let c0 = cs[0] as int;
        let a = preorder(g, c0);
        let rest = cs.drop_first();
        let r = preorder_list(g, rest, i);
        lemma_preorder_elems(g, c0);
        lemma_preorder_list_elems(g, i, rest);
        assert(preorder_list(g, cs, i) == a + r);
        let l = preorder_list(g, cs, i);
        assert forall|k: int|
            0 <= k < l.len() implies exists|m: int|
            #![auto]
            0 <= m < cs.len() && in_subtree(g, cs[m] as int, #[trigger] l[k] as int) by {
            if k < a.len() {
                assert(l[k] == a[k]);
                assert(in_subtree(g, c0, a[k] as int));
                assert(0 <= 0 < cs.len() && in_subtree(g, cs[0] as int, l[k] as int));
            } else {
                assert(l[k] == r[k - a.len()]);
                let m = choose|m: int|
                    #![auto]
                    0 <= m < rest.len() && in_subtree(g, rest[m] as int, r[k - a.len()] as int);
                assert(cs[m + 1] == rest[m]);
                assert(0 <= m + 1 < cs.len() && in_subtree(g, cs[m + 1] as int, l[k] as int));
            }
        }
        assert forall|m: int, e: int|
            0 <= m < cs.len() && #[trigger] in_subtree(g, cs[m] as int, e) implies l.contains(
            e as usize,
        ) by {
            if m == 0 {
                assert(a.contains(e as usize));
                let idx = choose|idx: int| 0 <= idx < a.len() && a[idx] == e as usize;
                assert(l[idx] == e as usize);
            } else {
                assert(rest[m - 1] == cs[m]);
                assert(r.contains(e as usize));
                let idx = choose|idx: int| 0 <= idx < r.len() && r[idx] == e as usize;
                assert(l[a.len() + idx] == e as usize);
            }
        }
    }
}

/// The pre-order sequence visits no node twice.
proof fn lemma_preorder_no_dup<T>(g: GOM<T>, i: int)
    requires
        g.wf(),
        0 <= i < g.len(),
    ensures
        preorder(g, i).no_duplicates(),
    decreases g.len() - i, 1int, 0int,
{
    let cs = g.children_of(i);
    let l = preorder_list(g, cs, i);
    lemma_preorder_list_elems(g, i, cs);
    lemma_preorder_list_no_dup(g, i, cs);
    assert(preorder(g, i) == seq![i as usize] + l);
    assert forall|k1: int, k2: int|
        0 <= k1 < preorder(g, i).len() && 0 <= k2 < preorder(g, i).len() && k1 != k2 implies
        preorder(g, i)[k1] != preorder(g, i)[k2] by {
        if k1 == 0 || k2 == 0 {
            let k = if k1 == 0 {
                k2
            } else {
                k1
            };
            assert(preorder(g, i)[k] == l[k - 1]);
            let m = choose|m: int|
                #![auto]
                0 <= m < cs.len() && in_subtree(g, cs[m] as int, l[k - 1] as int);
            assert(i < cs[m] as int <= l[k - 1] as int);
        } else {
            assert(preorder(g, i)[k1] == l[k1 - 1]);
            assert(preorder(g, i)[k2] == l[k2 - 1]);
        }
    }
}

/// List form of [`lemma_preorder_no_dup`]: with strictly increasing children
/// the concatenated pre-orders are duplicate-free.
proof fn lemma_preorder_list_no_dup<T>(g: GOM<T>, i: int, cs: Seq<usize>)
    requires
        g.wf(),
        0 <= i < g.len(),
        forall|k: int|
            0 <= k < cs.len() ==> i < (#[trigger] cs[k] as int) && (cs[k] as int) < g.len()
                && g.parent_of(cs[k] as int) == Some(i as usize),
        forall|k1: int, k2: int|
            #![trigger cs[k1], cs[k2]]
            0 <= k1 < k2 < cs.len() ==> cs[k1] < cs[k2],
    ensures
        preorder_list(g, cs, i).no_duplicates(),
    decreases g.len() - i, 0int, cs.len(),
{
    if cs.len() == 0 {
    } else {
        let c0 = cs[0] as int;
        let a = preorder(g, c0);
        let rest = cs.drop_first();
        let r = preorder_list(g, rest, i);
        lemma_preorder_elems(g, c0);
        lemma_preorder_no_dup(g, c0);
        lemma_preorder_list_elems(g, i, rest);
        lemma_preorder_list_no_dup(g, i, rest);
        let l = preorder_list(g, cs, i);
        assert(l == a + r);
        assert forall|k1: int, k2: int|
            0 <= k1 < l.len() && 0 <= k2 < l.len() && k1 != k2 implies l[k1] != l[k2] by {
            if k1 < a.len() && k2 < a.len() {
                assert(l[k1] == a[k1] && l[k2] == a[k2]);
            } else if k1 >= a.len() && k2 >= a.len() {
                assert(l[k1] == r[k1 - a.len()] && l[k2] == r[k2 - a.len()]);
            } else {
                let ka = if k1 < a.len() {
                    k1
                } else {
                    k2
                };
                let kr = if k1 < a.len() {
                    k2
                } else {
                    k1
                };
                assert(l[ka] == a[ka]);
                assert(l[kr] == r[kr - a.len()]);
                assert(in_subtree(g, c0, a[ka] as int));
                let m = choose|m: int|
                    #![auto]
                    0 <= m < rest.len() && in_subtree(g, rest[m] as int, r[kr - a.len()] as int);
                assert(rest[m] == cs[m + 1]);
                assert(cs[0] < cs[m + 1]);
                lemma_sibling_subtrees_disjoint(
                    g,
                    i,
                    c0,
                    cs[m + 1] as int,
                    a[ka] as int,
                );
                if l[k1] == l[k2] {
                    assert(in_subtree(g, cs[m + 1] as int, a[ka] as int));
                }
            }
        }
    }
}

/// Position `k` of the visit order `w` is preceded by the parent of the node
/// it visits.
pub open spec fn parent_seen_before<T>(g: GOM<T>, w: Seq<usize>, k: int) -> bool {
    exists|m: int| 0 <= m < k && w[m] == g.parent_of(#[trigger] w[k] as int).unwrap()
}

/// In the pre-order sequence every node but the first is preceded by its
/// parent.
proof fn lemma_preorder_parents_first<T>(g: GOM<T>, i: int)
    requires
        g.wf(),
        0 <= i < g.len(),
    ensures
        forall|k: int|
            0 < k < preorder(g, i).len() ==> #[trigger] parent_seen_before(g, preorder(g, i), k),
    decreases g.len() - i, 1int, 0int,
{
    let cs = g.children_of(i);
    let l = preorder_list(g, cs, i);
    lemma_preorder_list_parents_first(g, i, cs);
    assert(preorder(g, i) == seq![i as usize] + l);
    let w = preorder(g, i);
    assert forall|k: int| 0 < k < w.len() implies #[trigger] parent_seen_before(g, w, k) by {
        assert(w[k] == l[k - 1]);
        if g.parent_of(l[k - 1] as int) == Some(i as usize) {
            assert(0 <= 0 < k && w[0] == g.parent_of(w[k] as int).unwrap());
        } else {
            let m = choose|m: int|
                0 <= m < k - 1 && #[trigger] l[m] == g.parent_of(l[k - 1] as int).unwrap();
            assert(0 <= m + 1 < k && w[m + 1] == g.parent_of(w[k] as int).unwrap());
        }
    }
}

/// List form of [`lemma_preorder_parents_first`]: within the concatenated
/// pre-orders a node's parent is the list owner itself or appears earlier.
proof fn lemma_preorder_list_parents_first<T>(g: GOM<T>, i: int, cs: Seq<usize>)
    requires
        g.wf(),
        0 <= i < g.len(),
        forall|k: int|
            0 <= k < cs.len() ==> i < (#[trigger] cs[k] as int) && (cs[k] as int) < g.len()
                && g.parent_of(cs[k] as int) == Some(i as usize),
    ensures
        forall|k: int|
            0 <= k < preorder_list(g, cs, i).len() ==> g.parent_of(
                #[trigger] preorder_list(g, cs, i)[k] as int,
            ) == Some(i as usize) || parent_seen_before(g, preorder_list(g, cs, i), k),
    decreases g.len() - i, 0int, cs.len(),
{
    if cs.len() == 0 {
    } else {
        let c0 = cs[0] as int;
        let a = preorder(g, c0);
        let rest = cs.drop_first();
        let r = preorder_list(g, rest, i);
        lemma_preorder_elems(g, c0);
        lemma_preorder_parents_first(g, c0);
        lemma_preorder_list_parents_first(g, i, rest);
        let l = preorder_list(g, cs, i);
        assert(l == a + r);
        assert forall|k: int|
            0 <= k < l.len() implies g.parent_of(#[trigger] l[k] as int) == Some(i as usize)
            || parent_seen_before(g, l, k) by {
            if k < a.len() {
                assert(l[k] == a[k]);
                if k == 0 {
                    assert(g.parent_of(l[k] as int) == Some(i as usize));
                } else {
                    assert(parent_seen_before(g, a, k));
                    let m = choose|m: int|
                        0 <= m < k && #[trigger] a[m] == g.parent_of(a[k] as int).unwrap();
                    assert(0 <= m < k && l[m] == g.parent_of(l[k] as int).unwrap());
                    assert(parent_seen_before(g, l, k));
                }
            } else {
                assert(l[k] == r[k - a.len()]);
                if g.parent_of(r[k - a.len()] as int) == Some(i as usize) {
                } else {
                    assert(parent_seen_before(g, r, k - a.len()));
                    let m = choose|m: int|
                        0 <= m < k - a.len() && #[trigger] r[m] == g.parent_of(
                            r[k - a.len()] as int,
                        ).unwrap();
                    assert(0 <= a.len() + m < k && l[a.len() + m] == g.parent_of(
                        l[k] as int,
                    ).unwrap());
                    assert(parent_seen_before(g, l, k));
                }
            }
        }
    }
}

/// Law (walk completeness): on a well-formed tree of N nodes, the `Walk`
/// traversal from the root yields exactly N cursors, each node exactly once,
/// and every node's parent strictly before the node itself.
pub proof fn lemma_walk_completeness<T>(g: GOM<T>)
    requires
        g.wf(),
        g.len() > 0,
    ensures
        ({
            let w = iter_seq(g, 0, IterRule::Walk);
            &&& w.len() == g.len()
            &&& forall|j: int| 0 <= j < g.len() ==> #[trigger] w.contains(j as usize)
            &&& w.no_duplicates()
            &&& forall|k: int| 0 < k < w.len() ==> #[trigger] parent_seen_before(g, w, k)
        }),
{
    let w = preorder(g, 0);
    lemma_preorder_elems(g, 0);
    lemma_preorder_no_dup(g, 0);
    lemma_preorder_parents_first(g, 0);
    assert forall|j: int| 0 <= j < g.len() implies #[trigger] w.contains(j as usize) by {
        lemma_root_subtree(g, j);
    }
    let ints = w.map_values(|u: usize| u as int);
    assert(ints.no_duplicates()) by {
        assert forall|k1: int, k2: int|
            0 <= k1 < ints.len() && 0 <= k2 < ints.len() && k1 != k2 implies ints[k1]
            != ints[k2] by {
            assert(w[k1] != w[k2]);
        }
    }
    ints.unique_seq_to_set();
    assert(ints.to_set() =~= vstd::set_lib::set_int_range(0, g.len() as int)) by {
        assert forall|e: int| ints.to_set().contains(e) implies 0 <= e < g.len() by {
            let k = choose|k: int| 0 <= k < ints.len() && ints[k] == e;
            assert(in_subtree(g, 0, w[k] as int));
        }
        assert forall|e: int| 0 <= e < g.len() implies ints.to_set().contains(e) by {
            assert(w.contains(e as usize));
            let k = choose|k: int| 0 <= k < w.len() && w[k] == e as usize;
            assert(ints[k] == e);
        }
    }
    vstd::set_lib::lemma_int_range(0, g.len() as int);
    assert(w.len() == g.len());
}

/// Law (walk order, any start): on a well-formed tree the `Walk` traversal
/// from any cursor yields the start node first, visits exactly the nodes of
/// the subtree under the start, each exactly once, and yields every node but
/// the start strictly after its parent.
pub proof fn lemma_walk_preorder<T>(g: GOM<T>, c: Explorer)
    requires
        g.wf(),
        c.valid(g),
    ensures
        ({
            let w = iter_seq(g, c.at as int, IterRule::Walk);
            &&& w.len() >= 1
            &&& w[0] == c.at
            &&& forall|k: int|
                0 <= k < w.len() ==> in_subtree(g, c.at as int, #[trigger] w[k] as int)
            &&& forall|e: int| #[trigger] in_subtree(g, c.at as int, e) ==> w.contains(e as usize)
            &&& w.no_duplicates()
            &&& forall|k: int| 0 < k < w.len() ==> #[trigger] parent_seen_before(g, w, k)
        }),
{
    lemma_preorder_elems(g, c.at as int);
    lemma_preorder_no_dup(g, c.at as int);
    lemma_preorder_parents_first(g, c.at as int);
}

/// The node `i` and all its ancestors, nearest first.
pub open spec fn hierarchy_seq<T>(g: GOM<T>, i: int) -> Seq<usize>
    decreases i,
{
    if 0 <= i < g.len() {
        match g.parent_of(i) {
            None => seq![i as usize],
            Some(p) => if p < i {
                seq![i as usize] + hierarchy_seq(g, p as int)
            } else {
                seq![i as usize]
            },
        }
    } else {
        Seq::empty()
    }
}

/// The strict ancestors of node `i`, nearest first.
pub open spec fn parents_seq<T>(g: GOM<T>, i: int) -> Seq<usize> {
    if 0 <= i < g.len() && g.parent_of(i) is Some {
        hierarchy_seq(g, g.parent_of(i).unwrap() as int)
    } else {
        Seq::empty()
    }
}

/// The node `i` and its subsequent siblings; empty at the root.
pub open spec fn siblings_seq<T>(g: GOM<T>, i: int) -> Seq<usize> {
    if 0 <= i < g.len() && g.parent_of(i) is Some {
        let p = g.parent_of(i).unwrap() as int;
        g.children_of(p).subrange(index_in_parent(g, i), g.children_of(p).len() as int)
    } else {
        Seq::empty()
    }
}

/// The full sequence of nodes that `iter` yields from `i` under `rule`.
pub open spec fn iter_seq<T>(g: GOM<T>, i: int, rule: IterRule) -> Seq<usize> {
    match rule {
        IterRule::Walk => preorder(g, i),
        IterRule::Hierarchy => hierarchy_seq(g, i),
        IterRule::Parents => parents_seq(g, i),
        IterRule::Children => if 0 <= i < g.len() {
            g.children_of(i)
        } else {
            Seq::empty()
        },
        IterRule::Siblings => siblings_seq(g, i),
    }
}

/// A finite, restartable-per-call traversal: the whole sequence of visited
/// nodes is fixed when the iterator is created, and `next` hands the cursors
/// out one by one.
pub struct Iter {
    pub rule: IterRule,
    pub items: Vec<usize>,
    pub pos: usize,
}

impl Iter {
    pub open spec fn wf(self) -> bool {
        self.pos <= self.items@.len()
    }

    /// The order this iterator follows.
    pub fn rule(&self) -> (r: IterRule)
        ensures
            r == self.rule,
    {
        self.rule
    }

    /// The next cursor of the traversal, or `None` once it is exhausted.
    pub fn next(&mut self) -> (r: Option<Explorer>)
        requires
            old(self).wf(),
        ensures
            final(self).wf(),
            final(self).rule == old(self).rule,
            final(self).items == old(self).items,
            match r {
                Some(e) => old(self).pos < old(self).items@.len() && e.at == old(
                    self,
                ).items@[old(self).pos as int] && final(self).pos == old(self).pos + 1,
                None => old(self).pos == old(self).items@.len() && final(self).pos == old(
                    self,
                ).pos,
            },
    {
        if self.pos < self.items.len() {
            let e = Explorer { at: self.items[self.pos] };
            self.pos = self.pos + 1;
            Some(e)
        } else {
            None
        }
    }
}

impl Explorer {
    /// Start a traversal from this cursor under the given rule. The sequence
    /// the iterator will yield equals [`iter_seq`] for that rule.
    pub fn iter<T>(&self, g: &GOM<T>, rule: IterRule) -> (it: Iter)
        requires
            g.wf(),
            self.valid(*g),
        ensures
            it.rule == rule,
            it.pos == 0,
            it.items@ == iter_seq(*g, self.at as int, rule),
            it.wf(),
    {
        let items = match rule {
            IterRule::Walk => walk_items(g, self.at),
            IterRule::Hierarchy => hierarchy_items(g, self.at),
            IterRule::Parents => parents_items(g, self.at),
            IterRule::Children => children_items(g, self.at),
            IterRule::Siblings => siblings_items(g, self.at),
        };
        Iter { rule, items, pos: 0 }
    }
}

/// Concatenated pre-orders of the stack entries, top of stack first: the part
/// of a depth-first walk that an explicit stack still owes.
spec fn stack_rest<T>(g: GOM<T>, st: Seq<usize>) -> Seq<usize>
    decreases st.len(),
{
    if st.len() == 0 {
        Seq::empty()
    } else {
        preorder(g, st.last() as int) + stack_rest(g, st.drop_last())
    }
}

/// Depth-first pre-order of the subtree under `at`, via an explicit stack.
fn walk_items<T>(g: &GOM<T>, at: usize) -> (v: Vec<usize>)
    requires
        g.wf(),
        g.valid(at as int),
    ensures
        v@ == preorder(*g, at as int),
{
    let mut items: Vec<usize> = Vec::new();
    let mut stack: Vec<usize> = Vec::new();
    stack.push(at);
    proof {
        assert(stack@.len() == 1);
        assert(stack@.last() == at);
        assert(stack@.drop_last() =~= Seq::<usize>::empty());
        assert(stack_rest(*g, stack@.drop_last()) =~= Seq::<usize>::empty());
        assert(stack_rest(*g, stack@) == preorder(*g, at as int) + stack_rest(
            *g,
            stack@.drop_last(),
        ));
        assert(items@ + stack_rest(*g, stack@) =~= preorder(*g, at as int));
    }
    while stack.len() > 0
        invariant
            g.wf(),
            forall|k: int| 0 <= k < stack@.len() ==> (#[trigger] stack@[k]) < g.len(),
            items@ + stack_rest(*g, stack@) == preorder(*g, at as int),
        decreases stack_rest(*g, stack@).len(),
    {
        let ghost st0 = stack@;
        let n = match stack.pop() {
            Some(n) => n,
            None => {
                proof {
                    assert(false);
                }
                return items;
            },
        };
        items.push(n);
        let ghost rest0 = stack_rest(*g, stack@);
        proof {
            assert(st0.last() == n);
            assert(st0.drop_last() == stack@);
            assert(stack_rest(*g, st0) == preorder(*g, n as int) + rest0);
        }
        let e = Explorer { at: n };
        let node = e.inside(g);
        let m = node.children.len();
        let mut j: usize = m;
        proof {
            assert(g.children_of(n as int).subrange(m as int, m as int) =~= Seq::<usize>::empty());
        }
        while j > 0
            invariant
                g.wf(),
                g.valid(n as int),
                m == g.children_of(n as int).len(),
                0 <= j <= m,
                node.children@ == g.children_of(n as int),
                forall|k: int| 0 <= k < stack@.len() ==> (#[trigger] stack@[k]) < g.len(),
                stack_rest(*g, stack@) == preorder_list(
                    *g,
                    g.children_of(n as int).subrange(j as int, m as int),
                    n as int,
                ) + rest0,
            decreases j,
        {
            j = j - 1;
            let c = node.children[j];
            let ghost st1 = stack@;
            stack.push(c);
            proof {
                assert(n < c < g.len());
                assert(stack@.last() == c);
                assert(stack@.drop_last() == st1);
                let tail = g.children_of(n as int).subrange(j as int, m as int);
                assert(tail[0] == c);
                assert(tail.drop_first() =~= g.children_of(n as int).subrange(
                    j as int + 1,
                    m as int,
                ));
                assert(preorder_list(*g, tail, n as int) == preorder(*g, c as int)
                    + preorder_list(
                    *g,
                    g.children_of(n as int).subrange(j as int + 1, m as int),
                    n as int,
                ));
                assert(stack_rest(*g, stack@) =~= preorder_list(*g, tail, n as int) + rest0);
            }
        }
        proof {
            assert(g.children_of(n as int).subrange(0, m as int) =~= g.children_of(n as int));
            assert(preorder(*g, n as int) == seq![n] + preorder_list(
                *g,
                g.children_of(n as int),
                n as int,
            ));
            assert(items@ + stack_rest(*g, stack@) =~= preorder(*g, at as int));
        }
    }
    proof {
        assert(items@ =~= preorder(*g, at as int));
    }
    items
}

/// The node and its ancestors, by climbing parent links.
fn hierarchy_items<T>(g: &GOM<T>, at: usize) -> (v: Vec<usize>)
    requires
        g.wf(),
        g.valid(at as int),
    ensures
        v@ == hierarchy_seq(*g, at as int),
{
    let mut items: Vec<usize> = Vec::new();
    let mut cur: usize = at;
    loop
        invariant
            g.wf(),
            g.valid(cur as int),
            items@ + hierarchy_seq(*g, cur as int) == hierarchy_seq(*g, at as int),
        decreases cur,
    {
        items.push(cur);
        let e = Explorer { at: cur };
        match e.parent(g) {
            Ok(p) => {
                cur = p.at;
            },
            Err(_) => {
                proof {
                    assert(items@ =~= hierarchy_seq(*g, at as int));
                }
                return items;
            },
        }
    }
}

/// The strict ancestors: the hierarchy of the parent, or nothing at the root.
fn parents_items<T>(g: &GOM<T>, at: usize) -> (v: Vec<usize>)
    requires
        g.wf(),
        g.valid(at as int),
    ensures
        v@ == parents_seq(*g, at as int),
{
    let e = Explorer { at };
    match e.parent(g) {
        Ok(p) => hierarchy_items(g, p.at),
        Err(_) => Vec::new(),
    }
}

/// The direct children, copied in insertion order.
fn children_items<T>(g: &GOM<T>, at: usize) -> (v: Vec<usize>)
    requires
        g.wf(),
        g.valid(at as int),
    ensures
        v@ == g.children_of(at as int),
{
    let e = Explorer { at };
    let node = e.inside(g);
    let m = node.children.len();
    let mut items: Vec<usize> = Vec::new();
    let mut k: usize = 0;
    while k < m
        invariant
            m == g.children_of(at as int).len(),
            node.children@ == g.children_of(at as int),
            0 <= k <= m,
            items@ == g.children_of(at as int).subrange(0, k as int),
        decreases m - k,
    {
        items.push(node.children[k]);
        k = k + 1;
        proof {
            assert(items@ =~= g.children_of(at as int).subrange(0, k as int));
        }
    }
    proof {
        assert(items@ =~= g.children_of(at as int));
    }
    items
}

/// The node and its subsequent siblings; empty at the root.
fn siblings_items<T>(g: &GOM<T>, at: usize) -> (v: Vec<usize>)
    requires
        g.wf(),
        g.valid(at as int),
    ensures
        v@ == siblings_seq(*g, at as int),
{
    let e = Explorer { at };
    let p = match e.parent(g) {
        Ok(p) => p,
        Err(_) => {
            return Vec::new();
        },
    };
    proof {
        crate::gom::lemma_parent_contains_child_once(*g, e);
    }
    let ghost kk = index_in_parent(*g, at as int);
    let node = p.inside(g);
    let m = node.children.len();
    let mut k: usize = 0;
    let mut items: Vec<usize> = Vec::new();
    while k < m && node.children[k] != at
        invariant
            g.wf(),
            g.valid(at as int),
            g.valid(p.at as int),
            g.parent_of(at as int) == Some(p.at),
            m == g.children_of(p.at as int).len(),
            node.children@ == g.children_of(p.at as int),
            0 <= k <= m,
            kk == index_in_parent(*g, at as int),
            0 <= kk < m,
            g.children_of(p.at as int)[kk] == at,
            forall|mm: int|
                0 <= mm < g.children_of(p.at as int).len() && g.children_of(p.at as int)[mm] == at
                    ==> mm == kk,
            forall|mm: int| 0 <= mm < k ==> g.children_of(p.at as int)[mm] != at,
        decreases m - k,
    {
        k = k + 1;
    }
    proof {
        if k >= m {
            assert(g.children_of(p.at as int)[kk] != at);
            assert(false);
        }
        assert(g.children_of(p.at as int)[k as int] == at);
        assert(k as int == kk);
    }
    let start = k;
    while k < m
        invariant
            m == g.children_of(p.at as int).len(),
            node.children@ == g.children_of(p.at as int),
            start == index_in_parent(*g, at as int),
            start <= k <= m,
            items@ == g.children_of(p.at as int).subrange(start as int, k as int),
        decreases m - k,
    {
        items.push(node.children[k]);
        k = k + 1;
        proof {
            assert(items@ =~= g.children_of(p.at as int).subrange(start as int, k as int));
        }
    }
    proof {
        assert(items@ =~= siblings_seq(*g, at as int));
    }
    items
}

} // verus!
