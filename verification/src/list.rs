//! A plain linked list that grows and shrinks at its front.

use vstd::prelude::*;

verus! {

/// One node of a list: a value, and the nodes behind it.
pub struct Node<T> {
    value: T,
    next: Option<Box<Node<T>>>,
}

/// A list of values, the one pushed last in front.
pub struct List<T> {
    head: Option<Box<Node<T>>>,
}

impl<T> Node<T> {
    /// The values from this node on.
    pub closed spec fn values(&self) -> Seq<T>
        decreases self,
    {
        match self.next {
            Some(next) => seq![self.value] + next.values(),
            None => seq![self.value],
        }
    }
}

/// The values of a chain of nodes, which may be empty.
spec fn chain<T>(link: Option<Box<Node<T>>>) -> Seq<T> {
    match link {
        Some(node) => node.values(),
        None => Seq::empty(),
    }
}

impl<T: Copy> Node<T> {
    /// A node in front of the nodes of `next`.
    pub fn new_with_next(value: T, next: Box<Node<T>>) -> (node: Box<Self>)
        ensures
            node.values() == seq![value] + next.values(),
    {
        Box::new(Node { value: value, next: Some(next) })
    }

    /// A node with nothing behind it.
    pub fn new(value: T) -> (node: Box<Self>)
        ensures
            node.values() == seq![value],
    {
        Box::new(Node { value: value, next: None })
    }
}

impl<T> View for List<T> {
    type V = Seq<T>;

    closed spec fn view(&self) -> Seq<T> {
        chain(self.head)
    }
}

impl<T: Copy> List<T> {
    /// The empty list.
    pub fn new() -> (list: Self)
        ensures
            list@ == Seq::<T>::empty(),
    {
        List { head: None }
    }

    /// Puts `value` in front of the list.
    pub fn push_front(&mut self, value: T)
        ensures
            final(self)@ == seq![value] + old(self)@,
    {
        match self.head.take() {
            Some(head) => {
                self.head = Some(Node::new_with_next(value, head));
            },
            None => {
                let node = Node::new(value);
                self.head = Some(node);
                assert(self@ =~= seq![value] + old(self)@);
            },
        }
    }

    /// Takes the value in front out of the list, if there is one.
    pub fn pop_front(&mut self) -> (value: Option<T>)
        ensures
            old(self)@.len() == 0 ==> value is None && final(self)@ == old(self)@,
            old(self)@.len() > 0 ==> value == Some(old(self)@.first()) && final(self)@ == old(
                self,
            )@.drop_first(),
    {
        match self.head.take() {
            None => None,
            Some(head) => {
                let item = *head;
                self.head = item.next;
                proof {
                    assert(self@ =~= old(self)@.drop_first());
                }
                Some(item.value)
            },
        }
    }

    /// The number of values of the list.
    pub fn size(&self) -> (count: u32)
        requires
            self@.len() <= u32::MAX,
        ensures
            count == self@.len(),
    {
        let mut count: u32 = 0;
        let mut cursor: &Option<Box<Node<T>>> = &self.head;
        loop
            invariant
                count + chain(*cursor).len() == self@.len(),
                self@.len() <= u32::MAX,
            decreases chain(*cursor).len(),
        {
            match cursor {
                Some(node) => {
                    count = count + 1;
                    cursor = &node.next;
                },
                None => {
                    return count;
                },
            }
        }
    }
}

} // verus!
