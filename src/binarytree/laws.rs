//! What holds of the tree across operations, stated over the views that the
//! operations' contracts use.
use super::{link_in_order, link_values, link_wf, BinaryTree, Link};
use crate::order::{lemma_trichotomy, lt, sorted, total_order};
use vstd::prelude::*;

verus! {

/// One update of a tree: a `push` or a `delete` of a value.
pub enum Op<T> {
    Push(T),
    Delete(T),
}

/// The values present after applying `ops` in order to a tree holding `s`:
/// `push` adds its value, `delete` removes it.
pub open spec fn apply_ops<T>(s: Set<T>, ops: Seq<Op<T>>) -> Set<T>
    decreases ops.len(),
{
    if ops.len() == 0 {
        s
    } else {
        match ops.last() {
            Op::Push(v) => apply_ops(s, ops.drop_last()).insert(v),
            Op::Delete(v) => apply_ops(s, ops.drop_last()).remove(v),
        }
    }
}

/// The in-order sequence of a well formed subtree is strictly ascending and
/// holds exactly the subtree's values.
proof fn lemma_link_in_order<T: Ord>(link: Link<T>)
    requires
        total_order::<T>(),
        link_wf(link),
    ensures
        sorted(link_in_order(link)),
        forall|x: T| #[trigger] link_in_order(link).contains(x) <==> link_values(link).contains(x),
    decreases link,
{
    if let Some(node) = link {
        lemma_link_in_order(node.left);
        lemma_link_in_order(node.right);
        let l = link_in_order(node.left);
        let r = link_in_order(node.right);
        let s = link_in_order(link);
        let v = node.value;
        assert(s == l + seq![v] + r);
        assert(link_values(link) == link_values(node.left).insert(v).union(link_values(node.right)));
        assert forall|x: T| #[trigger] s.contains(x) <==> link_values(link).contains(x) by {
            if s.contains(x) {
                let i = choose|i: int| 0 <= i < s.len() && s[i] == x;
                if i < l.len() {
                    assert(l[i] == x);
                    assert(l.contains(x));
                } else if i > l.len() {
                    assert(r[i - l.len() - 1] == x);
                    assert(r.contains(x));
                }
            }
            if link_values(node.left).contains(x) {
                assert(l.contains(x));
                let i = choose|i: int| 0 <= i < l.len() && l[i] == x;
                assert(s[i] == x);
            }
            if link_values(node.right).contains(x) {
                assert(r.contains(x));
                let i = choose|i: int| 0 <= i < r.len() && r[i] == x;
                assert(s[i + l.len() + 1] == x);
            }
            if x == v {
                assert(s[l.len() as int] == x);
            }
        }
        assert forall|i: int, j: int| 0 <= i < j < s.len() implies lt(#[trigger] s[i], #[trigger] s[j]) by {
            if i < l.len() {
                assert(l.contains(l[i]));
                assert(lt(s[i], v));
            }
            if j > l.len() {
                assert(r.contains(r[j - l.len() - 1]));
                assert(lt(v, s[j]));
            }
            if j < l.len() {
                assert(lt(l[i], l[j]));
            }
            if i > l.len() {
                assert(lt(r[i - l.len() - 1], r[j - l.len() - 1]));
            }
        }
    }
}

/// Two strictly ascending sequences with the same elements are equal.
proof fn lemma_sorted_unique<T: Ord>(a: Seq<T>, b: Seq<T>)
    requires
        total_order::<T>(),
        sorted(a),
        sorted(b),
        forall|x: T| a.contains(x) <==> b.contains(x),
    ensures
        a == b,
    decreases a.len(),
{
    if a.len() == 0 {
        if b.len() > 0 {
            assert(b.contains(b[0]));
        }
        assert(a =~= b);
    } else {
        assert(a.contains(a[0]));
        assert(b.len() > 0);
        assert(b.contains(b[0]));
        lemma_trichotomy(a[0], b[0]);
        let i = choose|i: int| 0 <= i < b.len() && b[i] == a[0];
        let k = choose|k: int| 0 <= k < a.len() && a[k] == b[0];
        if i > 0 {
            assert(lt(b[0], b[i]));
            if k > 0 {
                assert(lt(a[0], a[k]));
            }
        }
        assert(a[0] == b[0]);
        let ta = a.drop_first();
        let tb = b.drop_first();
        assert(ta.len() == a.len() - 1 && tb.len() == b.len() - 1);
        assert forall|x: T| ta.contains(x) <==> tb.contains(x) by {
            if ta.contains(x) {
                let p = choose|p: int| 0 <= p < ta.len() && ta[p] == x;
                assert(a[p + 1] == x);
                assert(lt(a[0], x));
                assert(b.contains(x));
                let q = choose|q: int| 0 <= q < b.len() && b[q] == x;
                if q == 0 {
                    assert(lt(x, x));
                }
                assert(tb[q - 1] == x);
            }
            if tb.contains(x) {
                let p = choose|p: int| 0 <= p < tb.len() && tb[p] == x;
                assert(b[p + 1] == x);
                assert(lt(b[0], x));
                assert(a.contains(x));
                let q = choose|q: int| 0 <= q < a.len() && a[q] == x;
                if q == 0 {
                    assert(lt(x, x));
                }
                assert(ta[q - 1] == x);
            }
        }
        lemma_sorted_unique(ta, tb);
        assert forall|k: int| 0 <= k < a.len() implies a[k] == b[k] by {
            if k > 0 {
                assert(a[k] == ta[k - 1]);
                assert(b[k] == tb[k - 1]);
            }
        }
        assert(a =~= b);
    }
}

/// Ordering: every operation keeps the tree well formed, and the in-order
/// sequence of a well formed tree, which is what both traversals yield, is
/// strictly ascending and holds exactly the values present.
pub proof fn lemma_in_order_ascending<T: Ord>(t: BinaryTree<T>)
    requires
        total_order::<T>(),
        t.well_formed(),
    ensures
        sorted(t.in_order()),
        forall|x: T| #[trigger] t.in_order().contains(x) <==> t@.contains(x),
{
    lemma_link_in_order(t.head);
}

/// Two well formed trees holding the same values are traversed alike: the
/// shape of a tree is not observable through its operations.
pub proof fn lemma_same_values_same_order<T: Ord>(t1: BinaryTree<T>, t2: BinaryTree<T>)
    requires
        total_order::<T>(),
        t1.well_formed(),
        t2.well_formed(),
        t1@ == t2@,
    ensures
        t1.in_order() == t2.in_order(),
{
    lemma_in_order_ascending(t1);
    lemma_in_order_ascending(t2);
    assert forall|x: T| t1.in_order().contains(x) <==> t2.in_order().contains(x) by {
        assert(t1.in_order().contains(x) <==> t1@.contains(x));
        assert(t2.in_order().contains(x) <==> t2@.contains(x));
    }
    lemma_sorted_unique(t1.in_order(), t2.in_order());
}

/// Membership: starting from an empty tree, after the pushes and deletes of
/// `ops` (each changing the view as its contract says) the tree holds `x`
/// exactly when some push of `x` is followed by no delete of `x`.
pub proof fn lemma_membership<T>(ops: Seq<Op<T>>, x: T)
    ensures
        apply_ops(Set::empty(), ops).contains(x) <==> exists|i: int|
            0 <= i < ops.len() && ops[i] == Op::Push(x) && forall|j: int|
                i < j < ops.len() ==> ops[j] != Op::Delete(x),
    decreases ops.len(),
{
    if ops.len() > 0 {
        let init = ops.drop_last();
        let n = ops.len() - 1;
        lemma_membership(init, x);
        if apply_ops(Set::empty(), ops).contains(x) {
            if ops[n] == Op::Push(x) {
                assert(ops[n] == Op::Push(x) && forall|j: int| n < j < ops.len() ==> ops[j] != Op::Delete(x));
            } else {
                let i = choose|i: int|
                    0 <= i < init.len() && init[i] == Op::Push(x) && forall|j: int|
                        i < j < init.len() ==> init[j] != Op::Delete(x);
                assert(ops[i] == Op::Push(x));
                assert forall|j: int| i < j < ops.len() implies ops[j] != Op::Delete(x) by {
                    if j < n {
                        assert(init[j] == ops[j]);
                    }
                }
            }
        }
        if exists|i: int|
            0 <= i < ops.len() && ops[i] == Op::Push(x) && forall|j: int|
                i < j < ops.len() ==> ops[j] != Op::Delete(x) {
            let i = choose|i: int|
                0 <= i < ops.len() && ops[i] == Op::Push(x) && forall|j: int|
                    i < j < ops.len() ==> ops[j] != Op::Delete(x);
            if i < n {
                assert(init[i] == Op::Push(x));
                assert forall|j: int| i < j < init.len() implies init[j] != Op::Delete(x) by {
                    assert(ops[j] == init[j]);
                }
                assert(ops[n] != Op::Delete(x));
            }
        }
    }
}

/// Pushing a value twice leaves the tree as pushing it once does: the same
/// values, traversed in the same order.
pub proof fn lemma_push_twice<T: Ord>(t0: BinaryTree<T>, t1: BinaryTree<T>, t2: BinaryTree<T>, x: T)
    requires
        total_order::<T>(),
        t0.well_formed(),
        t1.well_formed(),
        t2.well_formed(),
        t1@ == t0@.insert(x),
        t2@ == t1@.insert(x),
    ensures
        t2@ == t1@,
        t2.in_order() == t1.in_order(),
{
    assert(t2@ =~= t1@);
    lemma_same_values_same_order(t1, t2);
}

/// Deleting a value twice leaves the tree as deleting it once does: the same
/// values, traversed in the same order.
pub proof fn lemma_delete_twice<T: Ord>(t0: BinaryTree<T>, t1: BinaryTree<T>, t2: BinaryTree<T>, x: T)
    requires
        total_order::<T>(),
        t0.well_formed(),
        t1.well_formed(),
        t2.well_formed(),
        t1@ == t0@.remove(x),
        t2@ == t1@.remove(x),
    ensures
        t2@ == t1@,
        t2.in_order() == t1.in_order(),
{
    assert(t2@ =~= t1@);
    lemma_same_values_same_order(t1, t2);
}

/// Round trip: a well formed tree holding exactly the distinct values `vals`
/// (as pushing each of them into a new tree leaves it) is traversed as those
/// values in ascending order, each once and none missing.
pub proof fn lemma_round_trip<T: Ord>(vals: Seq<T>, t: BinaryTree<T>)
    requires
        total_order::<T>(),
        vals.no_duplicates(),
        t.well_formed(),
        t@ == vals.to_set(),
    ensures
        sorted(t.in_order()),
        t.in_order().to_set() == vals.to_set(),
        t.in_order().len() == vals.len(),
{
    lemma_in_order_ascending(t);
    let s = t.in_order();
    assert(s.to_set() =~= vals.to_set());
    assert(s.no_duplicates()) by {
        assert forall|i: int, j: int| 0 <= i < s.len() && 0 <= j < s.len() && i != j implies s[i] != s[j] by {
            lemma_trichotomy(s[i], s[i]);
            if i < j {
                assert(lt(s[i], s[j]));
            } else {
                assert(lt(s[j], s[i]));
            }
        }
    }
    s.unique_seq_to_set();
    vals.unique_seq_to_set();
}

/// An empty tree holds no value, a delete leaves it as it is, and its
/// traversals yield nothing.
pub proof fn lemma_empty_tree<T: Ord>(t: BinaryTree<T>, x: T)
    requires
        total_order::<T>(),
        t.well_formed(),
        t@ == Set::<T>::empty(),
    ensures
        !t@.contains(x),
        t@.remove(x) == t@,
        t.in_order().len() == 0,
{
    lemma_in_order_ascending(t);
    assert(t@.remove(x) =~= t@);
    if t.in_order().len() > 0 {
        assert(t.in_order().contains(t.in_order()[0]));
    }
}

} // verus!
