//! The tree itself: nodes and slots, the descent that locates a value's
//! slot, insertion and deletion.
use crate::order::{lemma_trichotomy, lt, total_order};
use core::cmp::Ordering;
use vstd::prelude::*;
use vstd::std_specs::cmp::OrdSpec;

pub mod iter;
pub mod laws;

verus! {

/// An ownership slot: either empty, or the sole owner of one subtree.
pub type Link<T> = Option<Box<Node<T>>>;

/// One stored element with the slots of its two subtrees: values strictly
/// less than `value` live under `left`, values strictly greater under `right`.
pub struct Node<T> {
    pub(crate) value: T,
    pub(crate) left: Link<T>,
    pub(crate) right: Link<T>,
}

/// An unbalanced binary search tree holding each value at most once.
pub struct BinaryTree<T: Ord> {
    pub(crate) head: Link<T>,
}

/// The values held in the subtree owned by `link`.
pub closed spec fn link_values<T>(link: Link<T>) -> Set<T>
    decreases link,
{
    match link {
        None => Set::empty(),
        Some(node) => link_values(node.left).insert(node.value).union(link_values(node.right)),
    }
}

/// The values of the subtree owned by `link`, left subtree first, then the
/// node, then the right subtree.
pub closed spec fn link_in_order<T>(link: Link<T>) -> Seq<T>
    decreases link,
{
    match link {
        None => Seq::empty(),
        Some(node) => link_in_order(node.left) + seq![node.value] + link_in_order(node.right),
    }
}

/// The search tree ordering: at every node, the left subtree holds only
/// smaller values and the right subtree only greater ones.
pub closed spec fn link_wf<T: Ord>(link: Link<T>) -> bool
    decreases link,
{
    match link {
        None => true,
        Some(node) => {
            &&& forall|x: T| #[trigger] link_values(node.left).contains(x) ==> lt(x, node.value)
            &&& forall|x: T| #[trigger] link_values(node.right).contains(x) ==> lt(node.value, x)
            &&& link_wf(node.left)
            &&& link_wf(node.right)
        },
    }
}

/// The slot that the descent for `v` ends on, starting from `link`: the one
/// holding `v`, or the empty one where `v` would be placed.
pub closed spec fn slot_of<T: Ord>(link: Link<T>, v: T) -> Link<T>
    decreases link,
{
    match link {
        None => None,
        Some(node) => match node.value.cmp_spec(&v) {
            Ordering::Less => slot_of(node.right, v),
            Ordering::Greater => slot_of(node.left, v),
            Ordering::Equal => link,
        },
    }
}

/// `link` with the slot that the descent for `v` ends on replaced by `sub`.
pub closed spec fn replace_slot<T: Ord>(link: Link<T>, v: T, sub: Link<T>) -> Link<T>
    decreases link,
{
    match link {
        None => sub,
        Some(node) => match node.value.cmp_spec(&v) {
            Ordering::Less => Some(
                Box::new(Node { value: node.value, left: node.left, right: replace_slot(node.right, v, sub) }),
            ),
            Ordering::Greater => Some(
                Box::new(Node { value: node.value, left: replace_slot(node.left, v, sub), right: node.right }),
            ),
            Ordering::Equal => sub,
        },
    }
}

/// The slot at the end of the walk down left children from `link`: the node
/// holding the least value, or `link` itself when it is empty.
pub closed spec fn leftmost<T>(link: Link<T>) -> Link<T>
    decreases link,
{
    match link {
        None => None,
        Some(node) => if node.left is None {
            link
        } else {
            leftmost(node.left)
        },
    }
}

/// `link` with the slot that `leftmost` finds replaced by `sub`.
pub closed spec fn replace_leftmost<T>(link: Link<T>, sub: Link<T>) -> Link<T>
    decreases link,
{
    match link {
        None => sub,
        Some(node) => if node.left is None {
            sub
        } else {
            Some(Box::new(Node { value: node.value, left: replace_leftmost(node.left, sub), right: node.right }))
        },
    }
}

/// Whether the node owned by `link` has two children.
spec fn has_two_children<T>(link: Link<T>) -> bool {
    link matches Some(node) && node.left is Some && node.right is Some
}

impl<T> Node<T> {
    /// The element this node stores.
    pub closed spec fn element(self) -> T {
        self.value
    }

    fn new(value: T) -> (r: Self)
        ensures
            r.value == value,
            r.left is None,
            r.right is None,
    {
        Node { value: value, left: None, right: None }
    }
}

/// The descent for `v` ends on a slot that is well formed, holds no value
/// the tree lacks, and is occupied exactly when the tree holds `v`, then by
/// the node holding `v`.
/// The leftmost node of a well formed, nonempty subtree has no left child
/// and holds the subtree's least value.
proof fn lemma_leftmost<T: Ord>(link: Link<T>)
    requires
        total_order::<T>(),
        link_wf(link),
        link is Some,
    ensures
        leftmost(link) is Some,
        leftmost(link)->0.left is None,
        link_wf(leftmost(link)),
        link_values(leftmost(link)).subset_of(link_values(link)),
        forall|x: T| #[trigger]
            link_values(link).contains(x) ==> x == leftmost(link)->0.value || lt(leftmost(link)->0.value, x),
    decreases link,
{
    let node = link->0;
    if node.left is Some {
        lemma_leftmost(node.left);
        let m = leftmost(link)->0;
        assert(link_values(leftmost(node.left)).contains(m.value));
        assert(link_values(node.left).contains(m.value));
        assert(lt(m.value, node.value));
        assert forall|x: T| #[trigger] link_values(link).contains(x) implies x == m.value || lt(m.value, x) by {
            if link_values(node.right).contains(x) {
                assert(lt(node.value, x));
            }
        }
    } else {
        assert(leftmost(link) == link);
        assert(link_values(node.left) == Set::<T>::empty());
        assert forall|x: T| #[trigger] link_values(link).contains(x) implies x == node.value || lt(node.value, x) by {
            if link_values(node.right).contains(x) {
                assert(lt(node.value, x));
            }
        }
    }
}

/// Replacing the leftmost node of a well formed, nonempty subtree by a well
/// formed subtree holding the values of its right child removes exactly the
/// least value and keeps the subtree well formed.
proof fn lemma_replace_leftmost<T: Ord>(link: Link<T>, sub: Link<T>)
    requires
        total_order::<T>(),
        link_wf(link),
        link is Some,
        link_wf(sub),
        link_values(sub) == link_values(leftmost(link)->0.right),
    ensures
        link_wf(replace_leftmost(link, sub)),
        link_values(replace_leftmost(link, sub)) =~= link_values(link).remove(leftmost(link)->0.value),
    decreases link,
{
    lemma_leftmost(link);
    let node = link->0;
    let m = leftmost(link)->0;
    lemma_trichotomy(m.value, m.value);
    if node.left is Some {
        lemma_replace_leftmost(node.left, sub);
        lemma_leftmost(node.left);
        assert(leftmost(link) == leftmost(node.left));
        assert(link_values(leftmost(node.left)).contains(m.value));
        assert(link_values(node.left).contains(m.value));
        assert(lt(m.value, node.value));
        if link_values(node.right).contains(m.value) {
            assert(lt(node.value, m.value));
        }
        let rl = replace_leftmost(node.left, sub);
        assert(replace_leftmost(link, sub) == Some(
            Box::new(Node { value: node.value, left: rl, right: node.right }),
        ));
        assert(link_values(replace_leftmost(link, sub)) == link_values(rl).insert(node.value).union(
            link_values(node.right),
        ));
    } else {
        assert(leftmost(link) == link);
        assert(link_values(node.left) == Set::<T>::empty());
        if link_values(node.right).contains(m.value) {
            assert(lt(m.value, m.value));
        }
    }
}

proof fn lemma_slot_of<T: Ord>(link: Link<T>, v: T)
    requires
        total_order::<T>(),
        link_wf(link),
    ensures
        link_wf(slot_of(link, v)),
        link_values(slot_of(link, v)).subset_of(link_values(link)),
        link_values(link).contains(v) <==> slot_of(link, v) is Some,
        slot_of(link, v) matches Some(node) ==> node.value == v,
        replace_slot(link, v, slot_of(link, v)) == link,
    decreases link,
{
    if let Some(node) = link {
        lemma_slot_of(node.left, v);
        lemma_slot_of(node.right, v);
        lemma_trichotomy(node.value, v);
        if link_values(node.left).contains(v) {
            assert(lt(v, node.value));
        }
        if link_values(node.right).contains(v) {
            assert(lt(node.value, v));
        }
    }
}

/// Putting a well formed subtree in the slot that the descent for `v` ends
/// on keeps the tree well formed, provided the subtree holds only `v` and
/// values of the slot it replaces.
proof fn lemma_replace_slot<T: Ord>(link: Link<T>, v: T, sub: Link<T>)
    requires
        total_order::<T>(),
        link_wf(link),
        link_wf(sub),
        forall|x: T| #[trigger]
            link_values(sub).contains(x) ==> x == v || link_values(slot_of(link, v)).contains(x),
    ensures
        link_wf(replace_slot(link, v, sub)),
        link_values(replace_slot(link, v, sub)) =~= link_values(link).difference(
            link_values(slot_of(link, v)),
        ).union(link_values(sub)),
    decreases link,
{
    if let Some(node) = link {
        lemma_trichotomy(node.value, v);
        lemma_slot_of(node.left, v);
        lemma_slot_of(node.right, v);
        match node.value.cmp_spec(&v) {
            Ordering::Less => {
                lemma_replace_slot(node.right, v, sub);
                assert(lt(node.value, v));
            },
            Ordering::Greater => {
                lemma_replace_slot(node.left, v, sub);
                assert(lt(v, node.value));
            },
            Ordering::Equal => {},
        }
    }
}

impl<T: Ord> View for BinaryTree<T> {
    type V = Set<T>;

    /// The set of values the tree holds.
    closed spec fn view(&self) -> Set<T> {
        link_values(self.head)
    }
}

impl<T: Ord> BinaryTree<T> {
    /// The search tree ordering holds at every node.
    pub closed spec fn well_formed(&self) -> bool {
        link_wf(self.head)
    }

    /// The tree's values in in-order sequence.
    pub closed spec fn in_order(&self) -> Seq<T> {
        link_in_order(self.head)
    }

    /// The slot that the descent for `v` ends on.
    pub closed spec fn slot(&self, v: T) -> Link<T> {
        slot_of(self.head, v)
    }

    /// The tree with the slot that the descent for `v` ends on replaced by
    /// `sub`.
    pub closed spec fn with_slot(&self, v: T, sub: Link<T>) -> Self {
        BinaryTree { head: replace_slot(self.head, v, sub) }
    }

    /// An empty tree.
    pub fn new() -> (r: Self)
        ensures
            r.well_formed(),
            r@ == Set::<T>::empty(),
    {
        BinaryTree { head: None }
    }

    /// The slot that holds `value`, or the empty slot where it would go.
    pub fn locate(&self, value: &T) -> (r: &Link<T>)
        requires
            total_order::<T>(),
            self.well_formed(),
        ensures
            *r == self.slot(*value),
            r is Some <==> self@.contains(*value),
            r matches Some(node) ==> node.element() == *value,
    {
        proof {
            lemma_slot_of(self.head, *value);
        }
        let mut link = &self.head;
        loop
            invariant
                total_order::<T>(),
                link_values(self.head).contains(*value) <==> slot_of(self.head, *value) is Some,
                slot_of(self.head, *value) matches Some(node) ==> node.value == *value,
                slot_of(*link, *value) == slot_of(self.head, *value),
            decreases *link,
        {
            match link {
                Some(node) => {
                    match node.value.cmp(value) {
                        Ordering::Less => {
                            link = &node.right;
                        },
                        Ordering::Greater => {
                            link = &node.left;
                        },
                        Ordering::Equal => {
                            return link;
                        },
                    }
                },
                None => {
                    return link;
                },
            }
        }
    }

    /// The slot that holds `value`, or the empty slot where it would go,
    /// handed out for writing: whatever the caller leaves in it is what the
    /// tree holds there afterwards.
    pub fn locate_mut(&mut self, value: &T) -> (r: &mut Link<T>)
        requires
            total_order::<T>(),
            old(self).well_formed(),
        ensures
            *r == old(self).slot(*value),
            *r is Some <==> old(self)@.contains(*value),
            *r matches Some(node) ==> node.element() == *value,
            *final(self) == old(self).with_slot(*value, *final(r)),
    {
        proof {
            lemma_slot_of(self.head, *value);
        }
        let mut link = &mut self.head;
        loop
            invariant
                total_order::<T>(),
                link_values(old(self).head).contains(*value) <==> slot_of(old(self).head, *value) is Some,
                slot_of(old(self).head, *value) matches Some(node) ==> node.value == *value,
                slot_of(*link, *value) == slot_of(old(self).head, *value),
                forall|sub: Link<T>|
                    *final(link) == #[trigger] replace_slot(*link, *value, sub) ==> after_borrow(self.head)
                        == replace_slot(old(self).head, *value, sub),
            decreases *link,
        {
            let c = match link.as_ref() {
                Some(node) => Some(node.value.cmp(value)),
                None => None,
            };
            match c {
                Some(Ordering::Less) => {
                    let ghost cur = *link;
                    let ghost fin = *final(link);
                    let node = link.as_mut().unwrap();
                    link = &mut node.right;
                    assert forall|sub: Link<T>|
                        *final(link) == #[trigger] replace_slot(*link, *value, sub) implies after_borrow(
                            self.head,
                        ) == replace_slot(old(self).head, *value, sub) by {
                        assert(replace_slot(cur, *value, sub) == fin);
                    }
                },
                Some(Ordering::Greater) => {
                    let ghost cur = *link;
                    let ghost fin = *final(link);
                    let node = link.as_mut().unwrap();
                    link = &mut node.left;
                    assert forall|sub: Link<T>|
                        *final(link) == #[trigger] replace_slot(*link, *value, sub) implies after_borrow(
                            self.head,
                        ) == replace_slot(old(self).head, *value, sub) by {
                        assert(replace_slot(cur, *value, sub) == fin);
                    }
                },
                _ => {
                    assert(replace_slot(*link, *value, *final(link)) == *final(link));
                    assert(after_borrow(self.head) == replace_slot(old(self).head, *value, *final(link)));
                    return link;
                },
            }
        }
    }

    /// Removes `value`; a value the tree does not hold is no change.
    pub fn delete(&mut self, value: &T)
        requires
            total_order::<T>(),
            old(self).well_formed(),
        ensures
            final(self).well_formed(),
            final(self)@ == old(self)@.remove(*value),
            !old(self)@.contains(*value) ==> *final(self) == *old(self),
    {
        proof {
            lemma_slot_of(self.head, *value);
        }
        let ghost old_head = self.head;
        let delete_link = self.locate_mut(value);
        delete_node(delete_link);
        proof {
            lemma_replace_slot(old_head, *value, *delete_link);
            assert(link_values(self.head) =~= link_values(old_head).remove(*value));
        }
    }

    /// Whether the tree holds `value`.
    pub fn has_value(&self, value: &T) -> (r: bool)
        requires
            total_order::<T>(),
            self.well_formed(),
        ensures
            r == self@.contains(*value),
    {
        let has_value = match self.locate(value) {
            Some(_) => true,
            None => false,
        };
        has_value
    }

    /// Adds `value`; a value the tree already holds is left as it is.
    pub fn push(&mut self, value: T)
        requires
            total_order::<T>(),
            old(self).well_formed(),
        ensures
            final(self).well_formed(),
            final(self)@ == old(self)@.insert(value),
            old(self)@.contains(value) ==> *final(self) == *old(self),
    {
        proof {
            lemma_slot_of(self.head, value);
        }
        let ghost old_head = self.head;
        let push_node = self.locate_mut(&value);
        match push_node {
            Some(_) => {},
            None => {
                let new_node = Box::new(Node::new(value));
                *push_node = Some(new_node);
            },
        }
        proof {
            lemma_replace_slot(old_head, value, *push_node);
        }
    }
}

/// Removes the node owned by `link`, if any, keeping the rest of its subtree.
/// A node with two children takes the value of its in-order successor, whose
/// own node is then removed in its place.
fn delete_node<T: Ord>(link: &mut Link<T>)
    requires
        total_order::<T>(),
        link_wf(*old(link)),
    ensures
        link_wf(*final(link)),
        *old(link) is None ==> *final(link) is None,
        link_values(*final(link)) == (match *old(link) {
            None => Set::empty(),
            Some(node) => link_values(*old(link)).remove(node.value),
        }),
    decreases (if has_two_children(*old(link)) { 1nat } else { 0nat }),
{
    if link.is_none() {
        return ;
    }
    let ghost orig = *link;
    let mut node = link.take().unwrap();
    proof {
        lemma_trichotomy(node.value, node.value);
        assert(orig == Some(node));
    }
    match (node.left.take(), node.right.take()) {
        (Some(left_node), Some(right_node)) => {
            node.right = Some(right_node);
            node.left = Some(left_node);
            let ghost old_node = *node;
            let swap_link = find_successor(&mut node.right);
            proof {
                lemma_leftmost(old_node.right);
            }
            let succ = swap_link.as_mut().unwrap();
            std::mem::swap(&mut node.value, &mut succ.value);
            proof {
                let m = leftmost(old_node.right)->0;
                assert(link_values(old_node.right).contains(m.value));
                assert forall|x: T| #[trigger] link_values(m.right).contains(x) implies lt(old_node.value, x) by {
                    assert(link_values(leftmost(old_node.right)).contains(x));
                }
                assert(link_values(swap_link->0.left) == Set::<T>::empty());
            }
            delete_node(swap_link);
            proof {
                let m = leftmost(old_node.right)->0;
                assert(lt(old_node.value, m.value));
                if link_values(m.right).contains(old_node.value) {
                    assert(lt(old_node.value, old_node.value));
                }
                assert(link_values(*swap_link) =~= link_values(m.right));
                lemma_replace_leftmost(old_node.right, *swap_link);
                assert forall|x: T| #[trigger] link_values(node.left).contains(x) implies lt(x, node.value) by {
                    assert(lt(x, old_node.value));
                }
                if link_values(old_node.left).contains(old_node.value) {
                    assert(lt(old_node.value, old_node.value));
                }
                if link_values(old_node.right).contains(old_node.value) {
                    assert(lt(old_node.value, old_node.value));
                }
            }
            *link = Some(node);
            proof {
                assert(link_values(*link) =~= link_values(Some(Box::new(old_node))).remove(old_node.value));
            }
        },
        (Some(left_node), None) => {
            proof {
                assert(orig->0.left == Some(left_node));
                assert(orig->0.right is None);
                assert(link_values(orig->0.right) == Set::<T>::empty());
                if link_values(Some(left_node)).contains(node.value) {
                    assert(lt(node.value, node.value));
                }
            }
            *link = Some(left_node);
            proof {
                assert(link_values(*link) =~= link_values(*old(link)).remove(node.value));
            }
        },
        (None, Some(right_node)) => {
            proof {
                assert(orig->0.right == Some(right_node));
                assert(orig->0.left is None);
                assert(link_values(orig->0.left) == Set::<T>::empty());
                if link_values(Some(right_node)).contains(node.value) {
                    assert(lt(node.value, node.value));
                }
            }
            *link = Some(right_node);
            proof {
                assert(link_values(*link) =~= link_values(*old(link)).remove(node.value));
            }
        },
        (None, None) => {
            link.take();
            proof {
                assert(link_values(*link) =~= link_values(*old(link)).remove(node.value));
            }
        },
    }
}

/// The slot of the least value under `link`: walks down left children while
/// there are any.
fn find_successor<T>(link: &mut Link<T>) -> (r: &mut Link<T>)
    ensures
        *r == leftmost(*old(link)),
        *final(link) == replace_leftmost(*old(link), *final(r)),
{
    let mut cur = &mut *link;
    loop
        invariant
            leftmost(*cur) == leftmost(*old(link)),
            forall|sub: Link<T>|
                *final(cur) == #[trigger] replace_leftmost(*cur, sub) ==> after_borrow(*link)
                    == replace_leftmost(*old(link), sub),
        decreases *cur,
    {
        let go_left = match cur.as_ref() {
            Some(node) => node.left.is_some(),
            None => false,
        };
        if go_left {
            let ghost before = *cur;
            let ghost fin = *final(cur);
            let node = cur.as_mut().unwrap();
            cur = &mut node.left;
            assert forall|sub: Link<T>|
                *final(cur) == #[trigger] replace_leftmost(*cur, sub) implies after_borrow(*link)
                    == replace_leftmost(*old(link), sub) by {
                assert(replace_leftmost(before, sub) == fin);
            }
        } else {
            assert(replace_leftmost(*cur, *final(cur)) == *final(cur));
            return cur;
        }
    }
}

} // verus!
