//! In-order traversal of a tree, lazily, with an explicit stack of the
//! ancestors still to be visited: one traversal that borrows the tree and one
//! that takes it apart.
use super::{link_in_order, BinaryTree, Link, Node};
use vstd::prelude::*;

verus! {

/// The values still owed by a stack of ancestors, top of the stack first:
/// each ancestor's own value, then its right subtree.
pub closed spec fn pending<T>(stack: Seq<&Node<T>>) -> Seq<T>
    decreases stack.len(),
{
    if stack.len() == 0 {
        Seq::empty()
    } else {
        let top = stack.last();
        seq![top.value] + link_in_order(top.right) + pending(stack.drop_last())
    }
}

/// The values still owed by a stack of detached ancestors, top of the stack
/// first: each ancestor's own value, then its right subtree.
pub closed spec fn pending_owned<T>(stack: Seq<Box<Node<T>>>) -> Seq<T>
    decreases stack.len(),
{
    if stack.len() == 0 {
        Seq::empty()
    } else {
        let top = stack.last();
        seq![top.value] + link_in_order(top.right) + pending_owned(stack.drop_last())
    }
}

/// A traversal that borrows the tree and yields references to its values in
/// ascending order.
pub struct Iter<'a, T> {
    current: &'a Link<T>,
    stack: Vec<&'a Node<T>>,
}

/// A traversal that takes the tree apart and yields its values in ascending
/// order.
pub struct IntoIter<T> {
    current: Link<T>,
    stack: Vec<Box<Node<T>>>,
}

impl<'a, T> Iter<'a, T> {
    /// The values this traversal has still to yield, in order.
    pub closed spec fn rest(&self) -> Seq<T> {
        link_in_order(*self.current) + pending(self.stack@)
    }

    /// The next value, or `None` once every value has been yielded.
    pub fn next(&mut self) -> (r: Option<&'a T>)
        ensures
            old(self).rest().len() == 0 ==> r is None && final(self).rest() == old(self).rest(),
            old(self).rest().len() > 0 ==> r is Some && *r->0 == old(self).rest()[0],
            old(self).rest().len() > 0 ==> final(self).rest() == old(self).rest().drop_first(),
    {
        loop
            invariant
                self.rest() == old(self).rest(),
            ensures
                self.rest() == old(self).rest(),
                *self.current is None,
            decreases *self.current,
        {
            match self.current {
                Some(node) => {
                    let ghost before = self.stack@;
                    self.stack.push(node);
                    self.current = &node.left;
                    assert(pending(self.stack@) == seq![node.value] + link_in_order(node.right)
                        + pending(before)) by {
                        assert(self.stack@.drop_last() == before);
                    }
                    assert(self.rest() =~= old(self).rest());
                },
                None => {
                    break ;
                },
            }
        }
        let ghost before = self.stack@;
        match self.stack.pop() {
            Some(node) => {
                self.current = &node.right;
                assert(self.stack@ == before.drop_last());
                assert(old(self).rest() =~= seq![node.value] + self.rest());
                Some(&node.value)
            },
            None => None,
        }
    }
}

impl<T> IntoIter<T> {
    /// The values this traversal has still to yield, in order.
    pub closed spec fn rest(&self) -> Seq<T> {
        link_in_order(self.current) + pending_owned(self.stack@)
    }

    /// The next value, or `None` once every value has been yielded.
    pub fn next(&mut self) -> (r: Option<T>)
        ensures
            old(self).rest().len() == 0 ==> r is None && final(self).rest() == old(self).rest(),
            old(self).rest().len() > 0 ==> r == Some(old(self).rest()[0]),
            old(self).rest().len() > 0 ==> final(self).rest() == old(self).rest().drop_first(),
    {
        loop
            invariant
                self.rest() == old(self).rest(),
            ensures
                self.rest() == old(self).rest(),
                self.current is None,
            decreases self.current,
        {
            match self.current.take() {
                Some(mut node) => {
                    let ghost before = self.stack@;
                    let ghost whole = *node;
                    self.current = node.left.take();
                    self.stack.push(node);
                    assert(pending_owned(self.stack@) == seq![whole.value] + link_in_order(whole.right)
                        + pending_owned(before)) by {
                        assert(self.stack@.drop_last() == before);
                    }
                    assert(self.rest() =~= old(self).rest());
                },
                None => {
                    break ;
                },
            }
        }
        let ghost before = self.stack@;
        match self.stack.pop() {
            Some(mut node) => {
                let ghost whole = *node;
                self.current = node.right.take();
                assert(self.stack@ == before.drop_last());
                assert(old(self).rest() =~= seq![whole.value] + self.rest());
                Some(node.value)
            },
            None => None,
        }
    }
}

impl<T: Ord> BinaryTree<T> {
    /// A traversal of the tree's values in ascending order that leaves the
    /// tree as it is.
    pub fn iter(&mut self) -> (r: Iter<'_, T>)
        ensures
            r.rest() == old(self).in_order(),
            *final(self) == *old(self),
    {
        Iter { current: &self.head, stack: vec![] }
    }

    /// A traversal of the tree's values in ascending order that consumes the
    /// tree.
    pub fn into_iter(self) -> (r: IntoIter<T>)
        ensures
            r.rest() == self.in_order(),
    {
        IntoIter { current: self.head, stack: vec![] }
    }
}

} // verus!
