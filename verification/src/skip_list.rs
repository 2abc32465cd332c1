//! A transaction log as a skip list: entries are appended in the order of their offsets, and
//! an entry is found by its offset along lanes that skip most of the entries.
//!
//! The nodes live in one vector, in the order in which they were appended, and name their
//! successors by position in it. A node of height `h` stands in the lanes `0` to `h - 1`;
//! lane `0` holds every node.

use vstd::prelude::*;

verus! {

type Link = Option<usize>;

/// An entry of a log with its successor in each lane that it stands in.
pub struct Node {
    next: Vec<Link>,
    offset: u64,
    command: String,
}

impl Node {
    /// The number of lanes that the node stands in.
    pub closed spec fn height(&self) -> nat {
        self.next@.len()
    }

    /// The offset and the command of the node.
    pub closed spec fn entry(&self) -> (u64, String) {
        (self.offset, self.command)
    }

    /// The node has no successor in any lane.
    pub closed spec fn is_last(&self) -> bool {
        forall|i: int| 0 <= i < self.next@.len() ==> (#[trigger] self.next@[i]) is None
    }

    /// A node of height `num_next` without successors.
    pub fn new(num_next: usize, offset: u64, command: String) -> (node: Node)
        ensures
            node.height() == num_next,
            node.entry() == (offset, command),
            node.is_last(),
    {
        let mut next: Vec<Link> = Vec::new();
        while next.len() < num_next
            invariant
                next.len() <= num_next,
                forall|i: int| 0 <= i < next.len() ==> (#[trigger] next[i]) is None,
            decreases num_next - next.len(),
        {
            next.push(None);
        }
        Node { next, offset, command }
    }
}

/// A log of entries with offsets, which are found along lanes.
pub struct BestTransactionLog {
    nodes: Vec<Node>,
    head: Link,
    tails: Vec<Link>,
    max_level: usize,
    length: usize,
}

/// A coin toss: `rand::random::<bool>()`, which draws from the random number generator of
/// the current thread. Nothing is claimed of the result.
#[verifier::external_body]
fn random_bool() -> bool {
    rand::random::<bool>()
}

impl View for BestTransactionLog {
    type V = Seq<(u64, String)>;

    /// The entries of the log as pairs of offset and command, in the order in which they
    /// were appended.
    closed spec fn view(&self) -> Seq<(u64, String)> {
        Seq::new(self.nodes@.len(), |i: int| self.nodes@[i].entry())
    }
}

impl BestTransactionLog {
    /// The highest lane of the log.
    pub closed spec fn top(&self) -> nat {
        self.max_level as nat
    }

    /// The number of lanes that the entry at place `i` stands in.
    pub closed spec fn height(&self, i: int) -> nat {
        self.nodes@[i].height()
    }

    /// The place of the entry that follows the entry at place `i` in lane `level`, if any.
    pub closed spec fn next_at(&self, i: int, level: int) -> Option<int> {
        match self.nodes@[i].next@[level] {
            None => None,
            Some(m) => Some(m as int),
        }
    }

    /// The first entry stands in every lane; a successor in a lane stands in that lane, and
    /// behind its predecessor; in lane `0` it is the next entry of the log; and `tails` names
    /// the last entry of each lane.
    pub closed spec fn well_formed(&self) -> bool {
        let len = self.nodes@.len();
        &&& self.length == len
        &&& self.max_level < usize::MAX
        &&& self.tails@.len() == self.max_level + 1
        &&& self.head == (if len > 0 {
            Some(0usize)
        } else {
            None
        })
        &&& (len > 0 ==> self.nodes@[0].next@.len() == self.max_level + 1)
        &&& forall|n: int|
            0 <= n < len ==> 1 <= (#[trigger] self.nodes@[n]).next@.len() <= self.max_level + 1
        &&& forall|n: int, l: int|
            0 <= n < len && 0 <= l < self.nodes@[n].next@.len() ==> (
            #[trigger] self.nodes@[n].next@[l] matches Some(m) ==> n < m < len
                && self.nodes@[m as int].next@.len() > l)
        &&& forall|n: int|
            0 <= n < len ==> (#[trigger] self.nodes@[n]).next@[0] == (if n + 1 < len {
                Some((n + 1) as usize)
            } else {
                None
            })
        &&& forall|l: int|
            0 <= l <= self.max_level ==> match #[trigger] self.tails@[l] {
                None => len == 0,
                Some(t) => t < len && self.nodes@[t as int].next@.len() > l
                    && self.nodes@[t as int].next@[l] is None,
            }
        &&& (len > 0 ==> self.tails@[0] == Some((len - 1) as usize))
    }

    /// The offsets ascend strictly from each entry to the next.
    pub closed spec fn ascending(&self) -> bool {
        forall|i: int, j: int|
            0 <= i < j < self.nodes@.len() ==> (#[trigger] self.nodes@[i]).offset < (
            #[trigger] self.nodes@[j]).offset
    }

    /// The offsets of a log ascend exactly if each is less than every later one.
    pub proof fn lemma_ascending(&self)
        ensures
            self.ascending() <==> forall|i: int, j: int|
                0 <= i < j < self@.len() ==> (#[trigger] self@[i]).0 < (#[trigger] self@[j]).0,
    {
        if self.ascending() {
            assert forall|i: int, j: int| 0 <= i < j < self@.len() implies (#[trigger] self@[i]).0 < (
            #[trigger] self@[j]).0 by {
                assert(self.nodes@[i].offset < self.nodes@[j].offset);
            }
        }
        if forall|i: int, j: int|
            0 <= i < j < self@.len() ==> (#[trigger] self@[i]).0 < (#[trigger] self@[j]).0 {
            assert forall|i: int, j: int| 0 <= i < j < self.nodes@.len() implies (
            #[trigger] self.nodes@[i]).offset < (#[trigger] self.nodes@[j]).offset by {
                assert(self@[i].0 < self@[j].0);
            }
        }
    }

    /// An empty log with the lanes `0` to `max_level`.
    pub fn new_empty(max_level: usize) -> (log: BestTransactionLog)
        requires
            max_level < usize::MAX,
        ensures
            log.well_formed(),
            log@ == Seq::<(u64, String)>::empty(),
            log.top() == max_level,
    {
        let mut tails: Vec<Link> = Vec::new();
        while tails.len() < max_level + 1
            invariant
                max_level < usize::MAX,
                tails.len() <= max_level + 1,
                forall|i: int| 0 <= i < tails.len() ==> (#[trigger] tails[i]) is None,
            decreases max_level + 1 - tails.len(),
        {
            tails.push(None);
        }
        let log = BestTransactionLog { nodes: Vec::new(), head: None, tails, max_level, length: 0 };
        assert(log@ =~= Seq::<(u64, String)>::empty());
        log
    }

    /// The number of entries in the log.
    pub fn length(&self) -> (n: usize)
        requires
            self.well_formed(),
        ensures
            n == self@.len(),
    {
        self.length
    }

    /// The highest lane of the log.
    pub fn max_level(&self) -> (level: usize)
        ensures
            level == self.top(),
    {
        self.max_level
    }

    /// Tosses a coin until it shows tails, at most `max_level` times, and counts the heads.
    fn random_level(&self) -> (level: usize)
        ensures
            level <= self.max_level,
    {
        let mut l: usize = 0;
        while l < self.max_level && random_bool()
            invariant
                l <= self.max_level,
            decreases self.max_level - l,
        {
            l += 1;
        }
        l
    }

    /// Adds an entry at the end of the log. The first entry stands in every lane, a later
    /// one in as many lanes as the coin decides.
    pub fn append(&mut self, offset: u64, command: String)
        requires
            old(self).well_formed(),
            old(self)@.len() < usize::MAX,
        ensures
            final(self).well_formed(),
            final(self).top() == old(self).top(),
            final(self)@ == old(self)@.push((offset, command)),
            1 <= final(self).height(old(self)@.len() as int) <= old(self).top() + 1,
            old(self)@.len() == 0 ==> final(self).height(0) == old(self).top() + 1,
            forall|i: int|
                0 <= i < old(self)@.len() ==> final(self).height(i) == old(self).height(i),
            old(self).ascending() && (old(self)@.len() > 0 ==> old(self)@.last().0 < offset)
                ==> final(self).ascending(),
    {
        let level = 1 + if self.head.is_none() {
            self.max_level
        } else {
            self.random_level()
        };
        self.append_at_level(level, offset, command);
    }

    /// Adds an entry that stands in the lanes `0` to `level - 1` at the end of the log.
    pub fn append_at_level(&mut self, level: usize, offset: u64, command: String)
        requires
            old(self).well_formed(),
            old(self)@.len() < usize::MAX,
            1 <= level <= old(self).top() + 1,
            old(self)@.len() == 0 ==> level == old(self).top() + 1,
        ensures
            final(self).well_formed(),
            final(self).top() == old(self).top(),
            final(self)@ == old(self)@.push((offset, command)),
            final(self).height(old(self)@.len() as int) == level,
            forall|i: int|
                0 <= i < old(self)@.len() ==> final(self).height(i) == old(self).height(i),
            old(self).ascending() && (old(self)@.len() > 0 ==> old(self)@.last().0 < offset)
                ==> final(self).ascending(),
    {
        let new = Node::new(level, offset, command);
        let at = self.nodes.len();
        self.link_lanes(level, at);
        let ghost mid = self.nodes@;
        self.nodes.push(new);
        if self.head.is_none() {
            self.head = Some(at);
        }
        self.length += 1;
        proof {
            Self::lemma_appended(*old(self), mid, *self, new);
            assert(self@ =~= old(self)@.push((offset, command)));
        }
    }

    /// Makes the node at position `at` the successor of the last node of each of the lanes
    /// `0` to `level - 1`, and the last node of these lanes.
    fn link_lanes(&mut self, level: usize, at: usize)
        requires
            level <= old(self).tails@.len(),
            Self::tails_known(old(self).nodes@, old(self).tails@),
        ensures
            Self::lanes_linked(
                old(self).nodes@,
                old(self).tails@,
                final(self).nodes@,
                final(self).tails@,
                level as int,
                at,
            ),
            final(self).head == old(self).head,
            final(self).max_level == old(self).max_level,
            final(self).length == old(self).length,
    {
        let ghost nodes0 = self.nodes@;
        let ghost tails0 = self.tails@;
        assert(nodes0.len() == self.nodes.len());
        let mut i: usize = 0;
        while i < level
            invariant
                i <= level <= tails0.len(),
                nodes0.len() <= usize::MAX,
                self.max_level == old(self).max_level,
                self.head == old(self).head,
                self.length == old(self).length,
                Self::tails_known(nodes0, tails0),
                Self::lanes_linked(nodes0, tails0, self.nodes@, self.tails@, i as int, at),
            decreases level - i,
        {
            let ghost nodes1 = self.nodes@;
            let ghost tails1 = self.tails@;
            assert(tails1[i as int] == tails0[i as int]);
            if let Some(tail) = self.tails[i] {
                assert(nodes1[tail as int].next@.len() == nodes0[tail as int].next@.len());
                self.nodes[tail].next[i] = Some(at);
                assert(self.nodes@.len() == nodes1.len());
                assert(self.nodes@[tail as int].next@ == nodes1[tail as int].next@.update(
                    i as int,
                    Some(at),
                ));
                assert(self.nodes@[tail as int].offset == nodes1[tail as int].offset);
                assert(forall|n: int|
                    0 <= n < nodes1.len() && n != tail ==> self.nodes@[n] == nodes1[n]);
            }
            self.tails[i] = Some(at);
            proof {
                let nodes2 = self.nodes@;
                let tails2 = self.tails@;
                assert forall|n: int| 0 <= n < nodes0.len() implies (#[trigger] nodes2[n]).next@.len()
                    == nodes0[n].next@.len() && nodes2[n].offset == nodes0[n].offset
                    && nodes2[n].command == nodes0[n].command by {
                    assert(nodes1[n].next@.len() == nodes0[n].next@.len());
                }
                assert forall|n: int, l: int|
                    0 <= n < nodes0.len() && 0 <= l < nodes0[n].next@.len() implies #[trigger] nodes2[n].next@[l]
                    == (if l < i + 1 && tails0[l] == Some(n as usize) {
                    Some(at)
                } else {
                    nodes0[n].next@[l]
                }) by {
                    assert(nodes1[n].next@.len() == nodes0[n].next@.len());
                    assert(nodes1[n].next@[l] == (if l < i && tails0[l] == Some(n as usize) {
                        Some(at)
                    } else {
                        nodes0[n].next@[l]
                    }));
                }
                assert forall|l: int| 0 <= l < tails0.len() implies #[trigger] tails2[l] == (if l < i
                    + 1 {
                    Some(at)
                } else {
                    tails0[l]
                }) by {
                    assert(tails1[l] == (if l < i {
                        Some(at)
                    } else {
                        tails0[l]
                    }));
                }
            }
            i += 1;
        }
    }

    /// Each lane's last node is a node of that lane.
    pub closed spec fn tails_known(nodes: Seq<Node>, tails: Seq<Link>) -> bool {
        forall|l: int|
            0 <= l < tails.len() ==> (#[trigger] tails[l] matches Some(t) ==> t < nodes.len()
                && nodes[t as int].next@.len() > l)
    }

    /// What `link_lanes` has done when it has dealt with the lanes below `upto`: in these
    /// lanes the former last node is followed by the node at `at`, which is the last now;
    /// all else is as it was.
    pub closed spec fn lanes_linked(
        nodes0: Seq<Node>,
        tails0: Seq<Link>,
        nodes: Seq<Node>,
        tails: Seq<Link>,
        upto: int,
        at: usize,
    ) -> bool {
        &&& nodes.len() == nodes0.len()
        &&& tails.len() == tails0.len()
        &&& forall|n: int|
            0 <= n < nodes0.len() ==> (#[trigger] nodes[n]).next@.len() == nodes0[n].next@.len()
                && nodes[n].offset == nodes0[n].offset && nodes[n].command == nodes0[n].command
        &&& forall|n: int, l: int|
            0 <= n < nodes0.len() && 0 <= l < nodes0[n].next@.len() ==> #[trigger] nodes[n].next@[l]
                == (if l < upto && tails0[l] == Some(n as usize) {
                Some(at)
            } else {
                nodes0[n].next@[l]
            })
        &&& forall|l: int|
            0 <= l < tails0.len() ==> #[trigger] tails[l] == (if l < upto {
                Some(at)
            } else {
                tails0[l]
            })
    }

    /// A log stays well-formed when a node is linked behind the last node of each of its
    /// lanes and then added to the nodes.
    proof fn lemma_appended(before: Self, mid: Seq<Node>, after: Self, new: Node)
        requires
            before.well_formed(),
            1 <= new.next@.len() <= before.max_level + 1,
            before.nodes@.len() == 0 ==> new.next@.len() == before.max_level + 1,
            new.is_last(),
            Self::lanes_linked(
                before.nodes@,
                before.tails@,
                mid,
                after.tails@,
                new.next@.len() as int,
                before.nodes@.len() as usize,
            ),
            after.nodes@ == mid.push(new),
            after.head == Some(0usize),
            after.max_level == before.max_level,
            after.length == before.length + 1,
            before.nodes@.len() < usize::MAX,
        ensures
            after.well_formed(),
            after.top() == before.top(),
            after.height(before.nodes@.len() as int) == new.next@.len(),
            forall|i: int| 0 <= i < before.nodes@.len() ==> after.height(i) == before.height(i),
            forall|i: int|
                0 <= i < before.nodes@.len() ==> (#[trigger] after.nodes@[i]).entry()
                    == before.nodes@[i].entry(),
            after.nodes@[before.nodes@.len() as int].entry() == new.entry(),
            before.ascending() && (before.nodes@.len() > 0 ==> before@.last().0 < new.offset)
                ==> after.ascending(),
    {
        let nodes0 = before.nodes@;
        let tails0 = before.tails@;
        let nodes = after.nodes@;
        let at = nodes0.len() as int;
        let len = nodes.len() as int;
        let level = new.next@.len() as int;
        assert forall|n: int| 0 <= n < at implies #[trigger] nodes[n] == mid[n] by {}
        assert forall|n: int| 0 <= n < len implies 1 <= (#[trigger] nodes[n]).next@.len()
            <= after.max_level + 1 by {
            if n < at {
                assert(mid[n].next@.len() == nodes0[n].next@.len());
            }
        }
        assert forall|n: int, l: int| 0 <= n < len && 0 <= l < nodes[n].next@.len() implies (
        #[trigger] nodes[n].next@[l] matches Some(m) ==> n < m < len && nodes[m as int].next@.len()
            > l) by {
            if n < at {
                assert(mid[n].next@.len() == nodes0[n].next@.len());
                assert(mid[n].next@[l] == (if l < level && tails0[l] == Some(n as usize) {
                    Some(at as usize)
                } else {
                    nodes0[n].next@[l]
                }));
                assert(nodes0[n].next@[l] matches Some(m) ==> n < m < at
                    && nodes0[m as int].next@.len() > l);
                if let Some(m) = nodes[n].next@[l] {
                    if m < at {
                        assert(mid[m as int].next@.len() == nodes0[m as int].next@.len());
                    }
                }
            }
        }
        assert forall|n: int| 0 <= n < len implies (#[trigger] nodes[n]).next@[0] == (if n + 1
            < len {
            Some((n + 1) as usize)
        } else {
            None
        }) by {
            if n < at {
                assert(mid[n].next@.len() == nodes0[n].next@.len());
                assert(nodes0[n].next@[0] == (if n + 1 < at {
                    Some((n + 1) as usize)
                } else {
                    None
                }));
                assert(mid[n].next@[0] == (if 0 < level && tails0[0] == Some(n as usize) {
                    Some(at as usize)
                } else {
                    nodes0[n].next@[0]
                }));
            }
        }
        assert forall|l: int| 0 <= l <= after.max_level implies match #[trigger] after.tails@[l] {
            None => len == 0,
            Some(t) => t < len && nodes[t as int].next@.len() > l && nodes[t as int].next@[l]
                is None,
        } by {
            assert(after.tails@[l] == (if l < level {
                Some(at as usize)
            } else {
                tails0[l]
            }));
            if l >= level {
                match tails0[l] {
                    None => {},
                    Some(t) => {
                        assert(mid[t as int].next@.len() == nodes0[t as int].next@.len());
                        assert(mid[t as int].next@[l] == nodes0[t as int].next@[l]);
                    },
                }
            }
        }
        assert(after.tails@[0] == Some(at as usize));
        if at > 0 {
            assert(mid[0].next@.len() == nodes0[0].next@.len());
        }
        assert forall|i: int| 0 <= i < at implies after.height(i) == before.height(i) && (
        #[trigger] after.nodes@[i]).entry() == before.nodes@[i].entry() by {
            assert(mid[i].next@.len() == nodes0[i].next@.len());
        }
        if before.ascending() && (at > 0 ==> before@.last().0 < new.offset) {
            assert forall|a: int, b: int| 0 <= a < b < len implies (#[trigger] nodes[a]).offset < (
            #[trigger] nodes[b]).offset by {
                assert(mid[a].offset == nodes0[a].offset);
                if b < at {
                    assert(mid[b].offset == nodes0[b].offset);
                    assert(nodes0[a].offset < nodes0[b].offset);
                } else {
                    assert(before@.last() == nodes0[at - 1].entry());
                    if a < at - 1 {
                        assert(nodes0[a].offset < nodes0[at - 1].offset);
                    }
                }
            }
        }
    }
}

impl BestTransactionLog {
    /// In lane `0` each entry is followed by the next entry of the log; in every lane, by a
    /// later entry that stands in that lane.
    pub proof fn lemma_lanes(&self, i: int, level: int)
        requires
            self.well_formed(),
            0 <= i < self@.len(),
            0 <= level < self.height(i),
        ensures
            level <= self.top(),
            self.next_at(i, 0) == (if i + 1 < self@.len() {
                Some(i + 1)
            } else {
                None
            }),
            self.next_at(i, level) matches Some(m) ==> i < m < self@.len() && level < self.height(
                m,
            ),
    {
        assert(1 <= self.nodes@[i].next@.len() <= self.max_level + 1);
        assert(self.nodes@[i].next@[level] matches Some(m) ==> i < m < self.nodes@.len()
            && self.nodes@[m as int].next@.len() > level);
    }

    /// The command of the entry with the given offset. It is looked for along the lanes,
    /// from the highest lane that leads anywhere down to lane `0`, in each lane as far as the
    /// offsets do not exceed the given one.
    pub fn find(&self, offset: u64) -> (found: Option<String>)
        requires
            self.well_formed(),
        ensures
            found matches Some(command) ==> exists|i: int|
                0 <= i < self@.len() && (#[trigger] self@[i]).0 == offset && self@[i].1@
                    == command@,
            self.ascending() ==> (found is Some <==> exists|i: int|
                0 <= i < self@.len() && (#[trigger] self@[i]).0 == offset),
            self@.len() > 0 && self@[0].0 == offset ==> found is Some,
    {
        let head = match self.head {
            None => {
                return None;
            },
            Some(head) => head,
        };
        if self.nodes[head].offset == offset {
            assert(self@[0].0 == offset);
            return Some(self.nodes[head].command.clone());
        }
        let mut max_level = self.max_level;
        loop
            invariant
                self.well_formed(),
                head == 0 < self.nodes@.len(),
                self.nodes@[0].offset != offset,
                max_level <= self.max_level,
            decreases max_level,
        {
            if self.nodes[head].next[max_level].is_some() {
                break ;
            }
            if max_level == 0 {
                assert(self.nodes@.len() == 1);
                assert forall|i: int| 0 <= i < self@.len() implies (#[trigger] self@[i]).0
                    != offset by {};
                return None;
            }
            max_level -= 1;
        }
        let mut node = head;
        let mut cur_level = max_level;
        loop
            invariant
                self.well_formed(),
                node < self.nodes@.len(),
                cur_level < self.nodes@[node as int].next@.len(),
                self.ascending() ==> forall|k: int|
                    0 <= k < node ==> (#[trigger] self.nodes@[k]).offset < offset,
            ensures
                self.ascending() ==> forall|i: int|
                    0 <= i < self@.len() ==> (#[trigger] self@[i]).0 != offset,
            decreases cur_level,
        {
            loop
                invariant
                    self.well_formed(),
                    node < self.nodes@.len(),
                    cur_level < self.nodes@[node as int].next@.len(),
                    self.ascending() ==> forall|k: int|
                        0 <= k < node ==> (#[trigger] self.nodes@[k]).offset < offset,
                ensures
                    node < self.nodes@.len(),
                    cur_level < self.nodes@[node as int].next@.len(),
                    self.ascending() ==> forall|k: int|
                        0 <= k < node ==> (#[trigger] self.nodes@[k]).offset < offset,
                    match self.nodes@[node as int].next@[cur_level as int] {
                        None => true,
                        Some(next) => self.nodes@[next as int].offset > offset,
                    },
                decreases self.nodes@.len() - node,
            {
                match self.nodes[node].next[cur_level] {
                    None => {
                        break ;
                    },
                    Some(next) => {
                        assert(self.nodes@[node as int].next@[cur_level as int] == Some(next));
                        if self.nodes[next].offset <= offset {
                            proof {
                                if self.ascending() {
                                    assert forall|k: int| 0 <= k < next implies (
                                    #[trigger] self.nodes@[k]).offset < offset by {
                                        assert(self.nodes@[k].offset < self.nodes@[next as int].offset);
                                    }
                                }
                            }
                            node = next;
                        } else {
                            break ;
                        }
                    },
                }
            }
            if self.nodes[node].offset == offset {
                assert(self@[node as int].0 == offset);
                return Some(self.nodes[node].command.clone());
            }
            if cur_level == 0 {
                proof {
                    if self.ascending() {
                        assert forall|i: int| 0 <= i < self@.len() implies (#[trigger] self@[i]).0
                            != offset by {
                            if i < node {
                                assert(self.nodes@[i].offset < offset);
                            } else if i > node {
                                assert(self.nodes@[node as int].next@[0] == Some((node + 1) as usize));
                                if i > node + 1 {
                                    assert(self.nodes@[node + 1].offset < self.nodes@[i].offset);
                                }
                            }
                        }
                    }
                }
                break ;
            }
            cur_level -= 1;
        }
        None
    }

    /// A walk along lane `level`, from the first entry on.
    pub fn iter(&self, level: usize) -> (walk: ListIterator<'_>)
        requires
            self.well_formed(),
            level <= self.top(),
        ensures
            walk.well_formed(),
            walk.log() == self,
            walk.lane() == level,
            walk.at() == (if self@.len() > 0 {
                Some(0int)
            } else {
                None
            }),
    {
        ListIterator::new(self, self.head, level)
    }
}

/// A place in a lane of a log, from which to walk on along the lane.
pub struct ListIterator<'a> {
    log: &'a BestTransactionLog,
    current: Link,
    level: usize,
}

impl<'a> ListIterator<'a> {
    /// The log that is walked.
    pub closed spec fn log(&self) -> &BestTransactionLog {
        self.log
    }

    /// The lane that is walked.
    pub closed spec fn lane(&self) -> nat {
        self.level as nat
    }

    /// The place in the log of the entry that comes next, or none when the walk is over.
    pub closed spec fn at(&self) -> Option<int> {
        match self.current {
            None => None,
            Some(at) => Some(at as int),
        }
    }

    /// The walk stands at an entry of a well-formed log that stands in the lane, or is over.
    pub closed spec fn well_formed(&self) -> bool {
        &&& self.log.well_formed()
        &&& (self.current matches Some(at) ==> at < self.log.nodes@.len()
            && self.log.nodes@[at as int].next@.len() > self.level)
    }

    /// A walk along lane `level` of `log` that starts at the place `start_at`.
    pub fn new(log: &'a BestTransactionLog, start_at: Link, level: usize) -> (walk: ListIterator<
        'a,
    >)
        requires
            log.well_formed(),
            start_at matches Some(at) ==> at < log@.len() && level < log.height(at as int),
        ensures
            walk.well_formed(),
            walk.log() == log,
            walk.lane() == level,
            walk.at() == (match start_at {
                None => None,
                Some(at) => Some(at as int),
            }),
    {
        ListIterator { log, current: start_at, level }
    }

    /// The offset of the entry at the place of the walk, and a copy of its command; the
    /// walk moves on along its lane.
    pub fn next(&mut self) -> (item: Option<(u64, String)>)
        requires
            old(self).well_formed(),
        ensures
            final(self).well_formed(),
            final(self).log() == old(self).log(),
            final(self).lane() == old(self).lane(),
            match old(self).at() {
                None => item is None && final(self).at() is None,
                Some(p) => 0 <= p < old(self).log()@.len() && item is Some && item.unwrap().0
                    == old(self).log()@[p].0 && item.unwrap().1@ == old(self).log()@[p].1@
                    && final(self).at() == old(self).log().next_at(p, old(self).lane() as int),
            },
    {
        match self.current {
            None => None,
            Some(current) => {
                let log: &'a BestTransactionLog = self.log;
                let node = &log.nodes[current];
                assert(node.next@[self.level as int] matches Some(m) ==> current < m
                    < log.nodes@.len() && log.nodes@[m as int].next@.len() > self.level);
                self.current = node.next[self.level];
                Some((node.offset, node.command.clone()))
            },
        }
    }
}

} // verus!
