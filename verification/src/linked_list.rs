//! A singly linked list of owned nodes, built from a slice back to front.
//!
//! A node's abstraction is [`Node::elems`]: the sequence of values from the
//! node to the end of the list.

use vstd::prelude::*;

verus! {

/// One list node.  The fields are public so that callers can link nodes by
/// hand.
pub struct Node<T> {
    pub val: T,
    pub next: Option<Box<Node<T>>>,
}

impl<T> Node<T> {
    /// The values from this node to the end of the list.
    pub open spec fn elems(self) -> Seq<T>
        decreases self,
    {
        match self.next {
            None => seq![self.val],
            Some(rest) => seq![self.val] + rest.elems(),
        }
    }
}

impl<T> Node<T> where T: Sized + Copy {
    /// A node holding `value`, linked to nothing.
    pub fn new(value: T) -> (n: Node<T>)
        ensures
            n.val == value,
            n.next is None,
            n.elems() == seq![value],
    {
        Node { val: value, next: None }
    }

    /// The node's value.
    pub fn get(&self) -> (v: T)
        ensures
            v == self.val,
    {
        self.val
    }

    /// Builds a list holding the values of `v` in order; `None` exactly when
    /// `v` is empty.  The list is assembled back to front.
    pub fn from(v: &[T]) -> (r: Option<Node<T>>)
        ensures
            r is None <==> v@.len() == 0,
            r is Some ==> r->0.elems() == v@,
    {
        if v.len() == 0 {
            return None;
        }

        let mut prev_node = Node::new(v[v.len() - 1]);
        let mut i: usize = v.len() - 1;
        proof {
            assert(prev_node.elems() =~= v@.skip(i as int));
        }
        while i > 0
            invariant
                i < v@.len(),
                prev_node.elems() == v@.skip(i as int),
            decreases i,
        {
            i = i - 1;
            let mut curr_node = Node::new(v[i]);
            curr_node.next = Some(Box::new(prev_node));
            prev_node = curr_node;
            proof {
                assert(prev_node.elems() =~= v@.skip(i as int));
            }
        }
        proof {
            assert(v@.skip(0) =~= v@);
        }
        Some(prev_node)
    }
}

} // verus!
