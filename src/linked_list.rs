//! A singly linked list that owns its nodes, front to back: values are added
//! at the back and taken from the front, in the order they were added.
use vstd::prelude::*;

verus! {

/// A node of a `LinkedList`: a value and the rest of the list after it.
pub struct Node<T> {
    pub value: T,
    pub next: Option<Box<Node<T>>>,
}

/// A linked list of values. Its view is the sequence of its values, front first.
pub struct LinkedList<T> {
    pub head: Option<Box<Node<T>>>,
}

impl<T> Node<T> {
    /// The values of a (possibly absent) chain of nodes, front first.
    pub open spec fn seq_of(opt: Option<Box<Node<T>>>) -> Seq<T>
        decreases opt,
    {
        match opt {
            None => Seq::empty(),
            Some(n) => seq![n.value] + Self::seq_of(n.next),
        }
    }
}

impl<T> View for Node<T> {
    type V = Seq<T>;

    /// This node's value, then the values of the nodes after it.
    open spec fn view(&self) -> Seq<T> {
        seq![self.value] + Node::seq_of(self.next)
    }
}

impl<T> View for LinkedList<T> {
    type V = Seq<T>;

    /// The values of the nodes from `head` on.
    open spec fn view(&self) -> Seq<T> {
        Node::seq_of(self.head)
    }
}

impl<T> LinkedList<T> {
    /// A new, empty list.
    pub fn new() -> (r: LinkedList<T>)
        ensures
            r@ == Seq::<T>::empty(),
    {
        LinkedList { head: None }
    }

    /// Add `value` at the back of the list.
    pub fn add_value(&mut self, value: T)
        ensures
            final(self)@ == old(self)@.push(value),
    {
        let ghost mut passed: Seq<T> = Seq::empty();
        let mut chain = self.head.take();
        let mut cur: &mut Option<Box<Node<T>>> = &mut chain;
        while cur.is_some()
            invariant
                old(self)@ == passed + Node::seq_of(*cur),
                Node::seq_of(after_borrow(chain)) == passed + Node::seq_of(*final(cur)),
            decreases Node::seq_of(*cur).len(),
        {
            match cur {
                Some(node) => {
                    proof {
                        passed = passed.push(node.value);
                    }
                    cur = &mut node.next;
                },
                None => {},
            }
        }
        *cur = Some(Node::new_ref_wrapped(value));
        assert(Node::seq_of(*cur) =~= seq![value]);
        self.head = chain;
    }

    /// The value at the front of the list, or `None` when it is empty.
    pub fn peek_head_value(&self) -> (r: Option<&T>)
        ensures
            r == (if self@.len() == 0 {
                None
            } else {
                Some(&self@[0])
            }),
    {
        match &self.head {
            None => None,
            Some(node) => Some(node.peek_val()),
        }
    }

    /// Take the front node off the list and return it, detached from the rest;
    /// `None` when the list is empty. The node after it becomes the front.
    pub fn dequeue(&mut self) -> (r: Option<Box<Node<T>>>)
        ensures
            old(self)@.len() == 0 ==> r.is_none() && final(self)@ == old(self)@,
            old(self)@.len() > 0 ==> r.is_some() && r.unwrap()@ == seq![old(self)@[0]]
                && final(self)@ == old(self)@.drop_first(),
    {
        match self.head.take() {
            Some(node) => {
                let mut node = node;
                let new_head = node.get_next();
                self.head = new_head;
                assert(old(self)@.drop_first() =~= Node::seq_of(self.head));
                Some(node)
            },
            None => None,
        }
    }

    /// Take the value at the front of the list; `None` when it is empty.
    pub fn dequeue_value(&mut self) -> (r: Option<T>)
        ensures
            old(self)@.len() == 0 ==> r.is_none() && final(self)@ == old(self)@,
            old(self)@.len() > 0 ==> r == Some(old(self)@[0]) && final(self)@ == old(
                self,
            )@.drop_first(),
    {
        match self.dequeue() {
            Some(node) => Some(node.value),
            None => None,
        }
    }
}

impl<T> Node<T> {
    /// A new node holding `value`, with nothing after it.
    pub fn new(value: T) -> (r: Node<T>)
        ensures
            r@ == seq![value],
    {
        let r = Node { value, next: None };
        assert(r@ =~= seq![value]);
        r
    }

    /// A new node holding `value`, with nothing after it, in its own box,
    /// ready to be linked into a list.
    pub fn new_ref_wrapped(value: T) -> (r: Box<Node<T>>)
        ensures
            r@ == seq![value],
    {
        Box::new(Node::new(value))
    }

    /// The value held in this node.
    pub fn peek_val(&self) -> (r: &T)
        ensures
            *r == self@[0],
    {
        &self.value
    }

    /// Make `node` the rest of the list after this node, dropping what
    /// followed before.
    fn assign_next(&mut self, node: Option<Box<Node<T>>>)
        ensures
            final(self).value == old(self).value,
            final(self)@ == seq![old(self).value] + Node::seq_of(node),
    {
        self.next = node;
    }

    /// Link `node` in right after this node, with what followed this node now
    /// following `node`; whatever followed `node` itself is dropped. With
    /// `None`, drop everything after this node.
    pub fn splice_in_next(&mut self, node: Option<Box<Node<T>>>)
        ensures
            node.is_none() ==> final(self)@ == seq![old(self)@[0]],
            node.is_some() ==> final(self)@ == seq![old(self)@[0], node.unwrap()@[0]] + old(
                self,
            )@.drop_first(),
    {
        match node {
            Some(node) => {
                let ghost spliced = node@[0];
                let mut node = node;
                let rest = self.get_next();
                node.assign_next(rest);
                self.assign_next(Some(node));
                assert(final(self)@ =~= seq![old(self)@[0], spliced] + old(self)@.drop_first());
            },
            None => {
                self.assign_next(None);
                assert(final(self)@ =~= seq![old(self).value]);
            },
        }
    }

    /// Detach and return the rest of the list after this node.
    fn get_next(&mut self) -> (r: Option<Box<Node<T>>>)
        ensures
            final(self).value == old(self).value,
            final(self)@ == seq![old(self).value],
            Node::seq_of(r) == old(self)@.drop_first(),
    {
        let r = self.next.take();
        assert(final(self)@ =~= seq![old(self).value]);
        assert(Node::seq_of(r) =~= old(self)@.drop_first());
        r
    }
}

} // verus!
