//! A doubly-linked list kept in an arena: nodes live in one vector and link
//! to each other by index, so the structure needs no shared ownership.
//!
//! Nodes are appended to the arena as they are added at the front, so the
//! list read front to back is the arena read back to front; every node's
//! `prev` and `next` reflect that.  The abstraction is [`DllList::view`]:
//! the values from head to tail.

use vstd::prelude::*;

verus! {

/// One node: its value and the indices of its neighbours in the arena.
pub struct DllNode {
    pub val: i32,
    pub prev: Option<usize>,
    pub next: Option<usize>,
}

impl DllNode {
    /// A node holding `val`, linked to nothing.
    pub fn new(val: i32) -> (n: DllNode)
        ensures
            n.val == val,
            n.prev is None,
            n.next is None,
    {
        DllNode { val, prev: None, next: None }
    }
}

/// The list: an arena of nodes with the head and tail indices.
pub struct DllList {
    nodes: Vec<DllNode>,
    head: Option<usize>,
    tail: Option<usize>,
}

impl DllList {
    /// The number of nodes.
    pub closed spec fn len(self) -> nat {
        self.nodes@.len()
    }

    /// The values from head to tail.
    pub closed spec fn view(self) -> Seq<i32> {
        Seq::new(self.nodes@.len(), |i: int| self.nodes@[self.nodes@.len() - 1 - i].val)
    }

    /// The structural invariant: the head is the newest node, the tail the
    /// oldest, and every node links to the nodes added just after and just
    /// before it.
    pub closed spec fn wf(self) -> bool {
        let n = self.nodes@.len() as int;
        &&& self.head == (if n == 0 {
            Option::<usize>::None
        } else {
            Some((n - 1) as usize)
        })
        &&& self.tail == (if n == 0 {
            Option::<usize>::None
        } else {
            Some(0usize)
        })
        &&& forall|j: int|
            0 <= j < n ==> (#[trigger] self.nodes@[j]).next == (if j == 0 {
                Option::<usize>::None
            } else {
                Some((j - 1) as usize)
            })
        &&& forall|j: int|
            0 <= j < n ==> (#[trigger] self.nodes@[j]).prev == (if j == n - 1 {
                Option::<usize>::None
            } else {
                Some((j + 1) as usize)
            })
    }

    /// An empty list.
    pub fn new() -> (l: DllList)
        ensures
            l.wf(),
            l.view() == Seq::<i32>::empty(),
    {
        let l = DllList { nodes: Vec::new(), head: None, tail: None };
        proof {
            assert(l.view() =~= Seq::<i32>::empty());
        }
        l
    }

    /// The head node, if any: the front of the list.
    pub fn get_head(&self) -> (r: Option<&DllNode>)
        requires
            self.wf(),
        ensures
            self.view().len() == 0 ==> r is None,
            self.view().len() > 0 ==> (r matches Some(n) && n.val == self.view()[0] && n.prev
                is None),
    {
        let count = self.nodes.len();
        match self.head {
            Some(i) => {
                proof {
                    assert(count as int == self.nodes@.len());
                    assert(i as int == self.nodes@.len() - 1);
                    assert(self.view()[0] == self.nodes@[i as int].val);
                    assert(self.nodes@[i as int].prev is None);
                }
                Some(&self.nodes[i])
            },
            None => None,
        }
    }

    /// The tail node, if any: the back of the list.
    pub fn get_tail(&self) -> (r: Option<&DllNode>)
        requires
            self.wf(),
        ensures
            self.view().len() == 0 ==> r is None,
            self.view().len() > 0 ==> (r matches Some(n) && n.val == self.view()[self.view().len()
                - 1] && n.next is None),
    {
        let count = self.nodes.len();
        match self.tail {
            Some(i) => {
                proof {
                    assert(count as int == self.nodes@.len());
                    assert(i as int == 0);
                    assert(self.view()[self.view().len() - 1] == self.nodes@[0].val);
                    assert(self.nodes@[0].next is None);
                }
                Some(&self.nodes[i])
            },
            None => None,
        }
    }

    /// Creates a node holding `val` and adds it at the front: the new node
    /// becomes the head, linked to the old head, and everything else keeps
    /// its place.
    pub fn add_front(&mut self, val: i32)
        requires
            old(self).wf(),
            old(self).len() < usize::MAX,
        ensures
            final(self).wf(),
            final(self).view() == seq![val] + old(self).view(),
    {
        let n = self.nodes.len();
        let mut node = DllNode::new(val);
        node.next = self.head;
        self.nodes.push(node);
        match self.head {
            Some(h) => {
                let mut old_head = DllNode::new(0);
                proof {
                    assert(h < self.nodes@.len());
                }
                old_head.val = self.nodes[h].val;
                old_head.prev = Some(n);
                old_head.next = self.nodes[h].next;
                self.nodes.set(h, old_head);
            },
            None => {
                self.tail = Some(n);
            },
        }
        self.head = Some(n);
        proof {
            assert(self.view() =~= seq![val] + old(self).view());
        }
    }
}

} // verus!
