//! A transaction log as a singly linked list: entries are appended at the end and taken
//! from the front.

use vstd::prelude::*;

verus! {

type Link = Option<Box<Node>>;

/// An entry of a log, which owns the entry after it.
pub struct Node {
    value: String,
    next: Link,
}

impl Node {
    /// A node that is the end of a list.
    pub fn new(value: String) -> (node: Box<Node>)
        ensures
            Self::chain(Some(node)) == seq![value],
    {
        let node = Box::new(Node { value, next: None });
        proof {
            assert(Self::chain(node.next) =~= Seq::<String>::empty());
            assert(Self::chain(Some(node)) =~= seq![value]);
        }
        node
    }

    /// The values from a link on, in the order of the list.
    pub closed spec fn chain(link: Link) -> Seq<String>
        decreases link,
    {
        match link {
            None => Seq::empty(),
            Some(node) => seq![node.value] + Self::chain(node.next),
        }
    }

    /// The entries of two lists read the same, one by one.
    pub open spec fn same_text(a: Seq<String>, b: Seq<String>) -> bool {
        &&& a.len() == b.len()
        &&& forall|i: int| 0 <= i < a.len() ==> (#[trigger] a[i])@ == b[i]@
    }

    /// A copy of the list from `link` on.
    fn copy_chain(link: &Link) -> (copy: Link)
        ensures
            Self::same_text(Self::chain(copy), Self::chain(*link)),
        decreases *link,
    {
        match link {
            None => None,
            Some(node) => {
                let rest = Self::copy_chain(&node.next);
                let copy = Box::new(Node { value: node.value.clone(), next: rest });
                assert forall|i: int| 0 <= i < Self::chain(Some(copy)).len() implies (
                #[trigger] Self::chain(Some(copy))[i])@ == Self::chain(*link)[i]@ by {
                    if i > 0 {
                        assert(Self::chain(Some(copy))[i] == Self::chain(rest)[i - 1]);
                        assert(Self::chain(*link)[i] == Self::chain(node.next)[i - 1]);
                    }
                }
                Some(copy)
            },
        }
    }

    /// Hangs `node` behind the last node that `link` leads to.
    fn append_to(link: &mut Link, node: Box<Node>)
        ensures
            Self::chain(*final(link)) == Self::chain(*old(link)) + Self::chain(Some(node)),
        decreases *old(link),
    {
        match link.take() {
            None => {
                *link = Some(node);
                assert(Self::chain(None) + Self::chain(Some(node)) =~= Self::chain(Some(node)));
            },
            Some(mut first) => {
                let ghost before = Self::chain(first.next);
                Self::append_to(&mut first.next, node);
                *link = Some(first);
                assert(seq![first.value] + (before + Self::chain(Some(node))) =~= (seq![
                    first.value,
                ] + before) + Self::chain(Some(node)));
            },
        }
    }
}

/// A log of entries that is appended to at the end and taken from at the front.
pub struct TransactionLog {
    head: Link,
    length: u64,
}

impl View for TransactionLog {
    type V = Seq<String>;

    /// The entries of the log, the oldest first.
    closed spec fn view(&self) -> Seq<String> {
        Node::chain(self.head)
    }
}

impl Clone for TransactionLog {
    /// A log with copies of the entries, in the same order.
    fn clone(&self) -> (copy: Self)
        ensures
            Node::same_text(copy@, self@),
            self.well_formed() ==> copy.well_formed(),
    {
        TransactionLog { head: Node::copy_chain(&self.head), length: self.length }
    }
}

impl TransactionLog {
    /// `length` counts the entries.
    pub closed spec fn well_formed(&self) -> bool {
        self.length == Node::chain(self.head).len()
    }

    /// A log without entries.
    pub fn new_empty() -> (log: TransactionLog)
        ensures
            log.well_formed(),
            log@ == Seq::<String>::empty(),
    {
        TransactionLog { head: None, length: 0 }
    }

    /// The number of entries in the log.
    pub fn length(&self) -> (n: u64)
        requires
            self.well_formed(),
        ensures
            n == self@.len(),
    {
        self.length
    }

    /// Adds an entry at the end of the log.
    pub fn append(&mut self, value: String)
        requires
            old(self).well_formed(),
            old(self)@.len() < u64::MAX,
        ensures
            final(self).well_formed(),
            final(self)@ == old(self)@.push(value),
    {
        let new_node = Node::new(value);
        Node::append_to(&mut self.head, new_node);
        self.length += 1;
        assert(old(self)@ + seq![value] =~= old(self)@.push(value));
    }

    /// Takes the oldest entry out of the log.
    pub fn pop(&mut self) -> (popped: Option<String>)
        requires
            old(self).well_formed(),
        ensures
            final(self).well_formed(),
            old(self)@.len() == 0 ==> popped is None && final(self)@ == old(self)@,
            old(self)@.len() > 0 ==> popped == Some(old(self)@[0]) && final(self)@ == old(
                self,
            )@.drop_first(),
    {
        match self.head.take() {
            None => None,
            Some(head) => {
                let head = *head;
                self.head = head.next;
                self.length -= 1;
                assert(Node::chain(self.head) =~= old(self)@.drop_first());
                Some(head.value)
            },
        }
    }
}

} // verus!
