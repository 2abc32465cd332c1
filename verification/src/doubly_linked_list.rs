//! A transaction log as a doubly linked list: entries are appended at the end, taken from
//! the front, and can be read in both directions.
//!
//! The nodes live in one vector and name their neighbours by position in it, so a link
//! never owns a node. The vector has no gaps: when a node leaves, the node at the end of the
//! vector moves into its place and its neighbours are told.

use vstd::prelude::*;

verus! {

type Link = Option<usize>;

/// An entry of a log with the positions of the entries after and before it.
pub struct Node {
    value: String,
    next: Link,
    prev: Link,
}

impl Node {
    /// The entry that the node holds.
    pub closed spec fn entry(&self) -> String {
        self.value
    }

    /// The node has no neighbours.
    pub closed spec fn is_single(&self) -> bool {
        self.next is None && self.prev is None
    }

    /// A node without neighbours.
    pub fn new(value: String) -> (node: Node)
        ensures
            node.entry() == value,
            node.is_single(),
    {
        Node { value, next: None, prev: None }
    }
}

/// A log of entries that is appended to at the end and taken from at the front.
pub struct BetterTransactionLog {
    nodes: Vec<Node>,
    head: Link,
    tail: Link,
    length: usize,
    /// For each place in the list, the position of its node in `nodes`.
    order: Ghost<Seq<int>>,
    /// For each position in `nodes`, the place of that node in the list.
    place: Ghost<Seq<int>>,
}

/// The link to the node at place `i` of the list, or none if there is no such place.
pub open spec fn link_at(order: Seq<int>, i: int) -> Link {
    if 0 <= i < order.len() {
        Some(order[i] as usize)
    } else {
        None
    }
}

/// A link after the node at position `from` has moved to position `to`.
pub open spec fn moved_link(link: Link, from: int, to: int) -> Link {
    if link == Some(from as usize) {
        Some(to as usize)
    } else {
        link
    }
}

impl View for BetterTransactionLog {
    type V = Seq<String>;

    /// The entries of the log, the oldest first.
    closed spec fn view(&self) -> Seq<String> {
        Seq::new(self.order@.len(), |i: int| self.nodes[self.order@[i]].value)
    }
}

impl BetterTransactionLog {
    /// Every node has its place in the list, is linked to the nodes at the places before and
    /// after its own, and `head` and `tail` are the two ends.
    pub closed spec fn well_formed(&self) -> bool {
        let order = self.order@;
        let place = self.place@;
        &&& order.len() == self.nodes.len()
        &&& place.len() == self.nodes.len()
        &&& self.length == self.nodes.len()
        &&& forall|i: int|
            0 <= i < order.len() ==> 0 <= #[trigger] order[i] < order.len() && place[order[i]] == i
        &&& forall|s: int|
            0 <= s < place.len() ==> 0 <= #[trigger] place[s] < place.len() && order[place[s]] == s
        &&& forall|s: int|
            0 <= s < place.len() ==> (#[trigger] self.nodes[s]).prev == link_at(order, place[s] - 1)
                && self.nodes[s].next == link_at(order, place[s] + 1)
        &&& self.head == link_at(order, 0)
        &&& self.tail == link_at(order, order.len() - 1)
    }

    /// A log without entries.
    pub fn new_empty() -> (log: BetterTransactionLog)
        ensures
            log.well_formed(),
            log@ == Seq::<String>::empty(),
    {
        let log = BetterTransactionLog {
            nodes: Vec::new(),
            head: None,
            tail: None,
            length: 0,
            order: Ghost(Seq::empty()),
            place: Ghost(Seq::empty()),
        };
        assert(log@ =~= Seq::<String>::empty());
        log
    }

    /// The number of entries in the log.
    pub fn length(&self) -> (n: usize)
        requires
            self.well_formed(),
        ensures
            n == self@.len(),
    {
        self.length
    }

    /// Adds an entry at the end of the log.
    pub fn append(&mut self, value: String)
        requires
            old(self).well_formed(),
            old(self)@.len() < usize::MAX,
        ensures
            final(self).well_formed(),
            final(self)@ == old(self)@.push(value),
    {
        let mut node = Node::new(value);
        let at = self.nodes.len();
        let ghost before = self.order@;
        let ghost places = self.place@;
        match self.tail {
            None => {
                self.head = Some(at);
            },
            Some(old) => {
                node.prev = Some(old);
                self.nodes[old].next = Some(at);
            },
        }
        self.tail = Some(at);
        self.nodes.push(node);
        self.length += 1;
        self.order = Ghost(before.push(at as int));
        self.place = Ghost(places.push(at as int));
        proof {
            let order = self.order@;
            assert forall|s: int| 0 <= s < self.place@.len() implies (#[trigger] self.nodes[s]).prev
                == link_at(order, self.place@[s] - 1) && self.nodes[s].next == link_at(
                order,
                self.place@[s] + 1,
            ) by {
                if s < at {
                    let i = places[s];
                    assert(old(self).nodes[s].prev == link_at(before, i - 1));
                    if i > 0 {
                        assert(order[i - 1] == before[i - 1]);
                    }
                    if i + 1 < before.len() {
                        assert(order[i + 1] == before[i + 1]);
                    }
                } else {
                    if at > 0 {
                        assert(order[at - 1] == before[at - 1]);
                    }
                }
            }
            assert forall|i: int| 0 <= i < old(self)@.len() implies self@[i] == old(self)@[i] by {
                assert(order[i] == before[i]);
            }
            assert(self@ =~= old(self)@.push(value));
        }
    }

    /// Takes the oldest entry out of the log.
    #[verifier::rlimit(40)]
    pub fn pop(&mut self) -> (popped: Option<String>)
        requires
            old(self).well_formed(),
        ensures
            final(self).well_formed(),
            old(self)@.len() == 0 ==> popped is None && final(self)@ == old(self)@,
            old(self)@.len() > 0 ==> popped == Some(old(self)@[0]) && final(self)@ == old(
                self,
            )@.drop_first(),
    {
        let head = match self.head {
            None => {
                return None;
            },
            Some(head) => head,
        };
        let ghost before = self.order@;
        let ghost places = self.place@;
        let ghost nodes0 = self.nodes@;
        let last = self.nodes.len() - 1;
        let ghost moved = places[last as int];
        assert(before[0] == head && places[head as int] == 0);
        assert(before[moved] == last);
        match self.nodes[head].next {
            None => {
                self.head = None;
                self.tail = None;
            },
            Some(next) => {
                assert(before[1] == next);
                self.nodes[next].prev = None;
                self.head = Some(next);
            },
        }
        let ghost nodes1 = self.nodes@;
        assert forall|s: int| 0 <= s < nodes0.len() && s != head implies (#[trigger] nodes1[s]).value
            == nodes0[s].value && nodes1[s].next == nodes0[s].next && nodes1[s].prev == (if places[s]
            == 1 {
            None
        } else {
            nodes0[s].prev
        }) by {
            assert(before[places[s]] == s);
        }
        if head != last {
            let before_last = self.nodes[last].prev;
            let after_last = self.nodes[last].next;
            match before_last {
                None => {
                    self.head = Some(head);
                },
                Some(p) => {
                    assert(before[moved - 1] == p);
                    self.nodes[p].next = Some(head);
                },
            }
            match after_last {
                None => {
                    self.tail = Some(head);
                },
                Some(n) => {
                    assert(before[moved + 1] == n);
                    self.nodes[n].prev = Some(head);
                },
            }
        }
        let ghost nodes2 = self.nodes@;
        assert forall|s: int| 0 <= s < nodes0.len() && s != head implies (#[trigger] nodes2[s]).value
            == nodes0[s].value && nodes2[s].next == moved_link(
            nodes1[s].next,
            last as int,
            head as int,
        ) && nodes2[s].prev == moved_link(nodes1[s].prev, last as int, head as int) by {
            assert(before[places[s]] == s);
            if places[s] + 1 < before.len() {
                assert(places[before[places[s] + 1]] == places[s] + 1);
            }
            if places[s] > 0 {
                assert(places[before[places[s] - 1]] == places[s] - 1);
            }
        }
        let node = self.nodes.swap_remove(head);
        self.length -= 1;
        self.order = Ghost(
            Seq::new(
                (before.len() - 1) as nat,
                |i: int|
                    if before[i + 1] == last {
                        head as int
                    } else {
                        before[i + 1]
                    },
            ),
        );
        self.place = Ghost(
            Seq::new(
                (before.len() - 1) as nat,
                |s: int|
                    if s == head {
                        places[last as int] - 1
                    } else {
                        places[s] - 1
                    },
            ),
        );
        proof {
            let order = self.order@;
            let place = self.place@;
            assert forall|i: int| 0 <= i < order.len() implies 0 <= #[trigger] order[i]
                < order.len() && place[order[i]] == i by {
                assert(places[before[i + 1]] == i + 1);
            }
            assert forall|s: int| 0 <= s < place.len() implies 0 <= #[trigger] place[s]
                < place.len() && order[place[s]] == s by {
                if s == head {
                    assert(before[places[last as int]] == last);
                } else {
                    assert(before[places[s]] == s);
                }
            }
            assert forall|s: int| 0 <= s < place.len() implies (#[trigger] self.nodes[s]).prev
                == link_at(order, place[s] - 1) && self.nodes[s].next == link_at(order, place[s] + 1)
                && self.nodes[s].value == nodes0[before[place[s] + 1]].value by {
                let was = before[place[s] + 1];
                assert(places[was] == place[s] + 1);
                assert(self.nodes[s] == nodes2[was]);
                assert(nodes0[was].prev == link_at(before, place[s]));
                assert(nodes0[was].next == link_at(before, place[s] + 2));
            }
            assert forall|i: int| 0 <= i < order.len() implies self@[i] == old(self)@[i + 1] by {
                assert(place[order[i]] == i);
            }
            assert(self@ =~= old(self)@.drop_first());
        }
        Some(node.value)
    }

    /// A walk from the oldest entry on.
    pub fn iter(&self) -> (walk: ListIterator<'_>)
        requires
            self.well_formed(),
        ensures
            walk.well_formed(),
            walk.log() == self,
            walk.at() == (if self@.len() > 0 {
                Some(0int)
            } else {
                None
            }),
    {
        ListIterator::new(self, self.head)
    }

    /// A walk from the newest entry on.
    pub fn back_iter(&self) -> (walk: ListIterator<'_>)
        requires
            self.well_formed(),
        ensures
            walk.well_formed(),
            walk.log() == self,
            walk.at() == (if self@.len() > 0 {
                Some(self@.len() - 1)
            } else {
                None
            }),
    {
        ListIterator::new(self, self.tail)
    }
}

/// A place in a log from which to walk forward with `next` or backward with `next_back`.
pub struct ListIterator<'a> {
    log: &'a BetterTransactionLog,
    current: Link,
}

impl<'a> ListIterator<'a> {
    /// The log that is walked.
    pub closed spec fn log(&self) -> &BetterTransactionLog {
        self.log
    }

    /// The place in the log of the entry that comes next, or none when the walk is over.
    pub closed spec fn at(&self) -> Option<int> {
        match self.current {
            None => None,
            Some(s) => Some(self.log.place@[s as int]),
        }
    }

    /// The walk stands at a node of a well-formed log, or is over.
    pub closed spec fn well_formed(&self) -> bool {
        &&& self.log.well_formed()
        &&& (self.current matches Some(s) ==> s < self.log.nodes.len())
    }

    fn new(log: &'a BetterTransactionLog, start_at: Link) -> (walk: ListIterator<'a>)
        requires
            log.well_formed(),
            start_at matches Some(s) ==> s < log.nodes.len(),
        ensures
            walk.log == log,
            walk.current == start_at,
            walk.well_formed(),
    {
        ListIterator { log, current: start_at }
    }

    /// The entry at the place of the walk; the walk moves on to the next newer entry.
    pub fn next(&mut self) -> (item: Option<&'a String>)
        requires
            old(self).well_formed(),
        ensures
            final(self).well_formed(),
            final(self).log() == old(self).log(),
            match old(self).at() {
                None => item is None && final(self).at() is None,
                Some(p) => 0 <= p < old(self).log()@.len() && item == Some(&old(self).log()@[p])
                    && final(self).at() == (if p + 1 < old(self).log()@.len() {
                    Some(p + 1)
                } else {
                    None
                }),
            },
    {
        match self.current {
            None => None,
            Some(current) => {
                let log: &'a BetterTransactionLog = self.log;
                let node = &log.nodes[current];
                proof {
                    let p = log.place@[current as int];
                    assert(log.order@[p] == current);
                    if p + 1 < log.order@.len() {
                        assert(log.place@[log.order@[p + 1]] == p + 1);
                    }
                }
                self.current = node.next;
                Some(&node.value)
            },
        }
    }

    /// The entry at the place of the walk; the walk moves on to the next older entry.
    pub fn next_back(&mut self) -> (item: Option<&'a String>)
        requires
            old(self).well_formed(),
        ensures
            final(self).well_formed(),
            final(self).log() == old(self).log(),
            match old(self).at() {
                None => item is None && final(self).at() is None,
                Some(p) => 0 <= p < old(self).log()@.len() && item == Some(&old(self).log()@[p])
                    && final(self).at() == (if p > 0 {
                    Some(p - 1)
                } else {
                    None
                }),
            },
    {
        match self.current {
            None => None,
            Some(current) => {
                let log: &'a BetterTransactionLog = self.log;
                let node = &log.nodes[current];
                proof {
                    let p = log.place@[current as int];
                    assert(log.order@[p] == current);
                    if p > 0 {
                        assert(log.place@[log.order@[p - 1]] == p - 1);
                    }
                }
                self.current = node.prev;
                Some(&node.value)
            },
        }
    }
}

} // verus!
