//! The node of a binary tree that owns its two subtrees.

use vstd::prelude::*;

verus! {

/// A tree node: one entry and two optional children.
#[derive(Debug)]
pub struct Node<K, V> {
    pub key_value: (K, V),
    pub left: Option<Box<Node<K, V>>>,
    pub right: Option<Box<Node<K, V>>>,
}

impl<K, V> Node<K, V> {
    /// Allocates a node holding `(k, v)` above the subtrees `l` and `r`.
    pub fn new(k: K, v: V, l: Option<Box<Node<K, V>>>, r: Option<Box<Node<K, V>>>) -> (node: Box<
        Node<K, V>,
    >)
        ensures
            node.key_value == (k, v),
            node.left == l,
            node.right == r,
    {
        Box::new(Node { key_value: (k, v), left: l, right: r })
    }

    /// Detaches the left subtree, if there is one, and hands it to the caller.
    pub fn pop_left(&mut self) -> (child: Option<Box<Node<K, V>>>)
        ensures
            child == old(self).left,
            final(self).left.is_none(),
            final(self).right == old(self).right,
            final(self).key_value == old(self).key_value,
    {
        self.left.take()
    }

    /// Detaches the left subtree, which must be there.
    pub fn take_left(&mut self) -> (child: Box<Node<K, V>>)
        requires
            old(self).left.is_some(),
        ensures
            Some(child) == old(self).left,
            final(self).left.is_none(),
            final(self).right == old(self).right,
            final(self).key_value == old(self).key_value,
    {
        self.left.take().unwrap()
    }

    /// Detaches the right subtree, if there is one, and hands it to the caller.
    pub fn pop_right(&mut self) -> (child: Option<Box<Node<K, V>>>)
        ensures
            child == old(self).right,
            final(self).right.is_none(),
            final(self).left == old(self).left,
            final(self).key_value == old(self).key_value,
    {
        self.right.take()
    }

    /// Detaches the right subtree, which must be there.
    pub fn take_right(&mut self) -> (child: Box<Node<K, V>>)
        requires
            old(self).right.is_some(),
        ensures
            Some(child) == old(self).right,
            final(self).right.is_none(),
            final(self).left == old(self).left,
            final(self).key_value == old(self).key_value,
    {
        self.right.take().unwrap()
    }
}

/// Copies an optional subtree, node by node.
fn copy_of<K: Copy, V: Copy>(tree: &Option<Box<Node<K, V>>>) -> (copy: Option<Box<Node<K, V>>>)
    ensures
        copy == *tree,
    decreases *tree,
{
    match tree {
        None => None,
        Some(node) => Some(
            Node::new(node.key_value.0, node.key_value.1, copy_of(&node.left), copy_of(&node.right)),
        ),
    }
}

impl<K: Copy, V: Copy> Clone for Node<K, V> {
    /// A copy of the node together with everything below it.
    fn clone(&self) -> (copy: Self)
        ensures
            copy == *self,
    {
        Node {
            key_value: (self.key_value.0, self.key_value.1),
            left: copy_of(&self.left),
            right: copy_of(&self.right),
        }
    }
}

} // verus!
