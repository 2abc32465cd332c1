//! A growing array of timestamps.

use vstd::prelude::*;

verus! {

type Node = Option<u64>;

/// The capacity of an empty array.
pub const MIN_SIZE: usize = 10;

/// Timestamps in a buffer that grows when it is full.
pub struct TimestampSaver {
    buf: Vec<Node>,
    pub length: usize,
}

/// The capacity after growing from `old_cap` to hold at least `min_cap`: half as much again,
/// or `min_cap` if that is more; never beyond what a `usize` holds.
pub open spec fn grown(old_cap: nat, min_cap: nat) -> nat {
    let wanted = old_cap + old_cap / 2;
    let capped = if wanted > usize::MAX {
        usize::MAX as nat
    } else {
        wanted
    };
    if min_cap > capped {
        min_cap
    } else {
        capped
    }
}

impl View for TimestampSaver {
    type V = Seq<u64>;

    /// The timestamps in the order in which they were appended.
    closed spec fn view(&self) -> Seq<u64> {
        Seq::new(self.length as nat, |i: int| self.buf[i].unwrap())
    }
}

impl TimestampSaver {
    /// The first `length` places of the buffer are filled.
    pub closed spec fn well_formed(&self) -> bool {
        &&& self.length <= self.buf.len()
        &&& forall|i: int| 0 <= i < self.length ==> (#[trigger] self.buf[i]) is Some
    }

    /// The number of places in the buffer.
    pub closed spec fn capacity(&self) -> nat {
        self.buf.len() as nat
    }

    /// An array without timestamps, with room for `MIN_SIZE` of them.
    pub fn new_empty() -> (saver: TimestampSaver)
        ensures
            saver.well_formed(),
            saver@ == Seq::<u64>::empty(),
            saver.capacity() == MIN_SIZE,
    {
        let saver = TimestampSaver { buf: Self::empty_buffer(MIN_SIZE), length: 0 };
        assert(saver@ =~= Seq::<u64>::empty());
        saver
    }

    /// A buffer of `cap` empty places.
    fn empty_buffer(cap: usize) -> (buf: Vec<Node>)
        ensures
            buf.len() == cap,
            forall|i: int| 0 <= i < cap ==> (#[trigger] buf[i]) is None,
    {
        let mut buf: Vec<Node> = Vec::new();
        while buf.len() < cap
            invariant
                buf.len() <= cap,
                forall|i: int| 0 <= i < buf.len() ==> (#[trigger] buf[i]) is None,
            decreases cap - buf.len(),
        {
            buf.push(None);
        }
        buf
    }

    /// The number of timestamps that the buffer has room for.
    pub fn cap(&self) -> (cap: usize)
        ensures
            cap == self.capacity(),
    {
        self.buf.len()
    }

    /// Moves the timestamps into a larger buffer.
    fn grow(&mut self, min_cap: usize)
        requires
            old(self).well_formed(),
        ensures
            final(self).well_formed(),
            final(self)@ == old(self)@,
            final(self).capacity() == grown(old(self).capacity(), min_cap as nat),
    {
        let old_cap = self.buf.len();
        let half = old_cap >> 1;
        assert(half == old_cap / 2) by (bit_vector)
            requires
                half == old_cap >> 1,
        ;
        let new_cap = if old_cap > usize::MAX - half {
            usize::MAX
        } else {
            old_cap + half
        };
        let new_cap = if min_cap > new_cap {
            min_cap
        } else {
            new_cap
        };
        let mut new = Self::empty_buffer(new_cap);
        let mut i: usize = 0;
        while i < self.length
            invariant
                i <= self.length <= self.buf.len() <= new.len(),
                new.len() == new_cap,
                self.well_formed(),
                forall|j: int| 0 <= j < i ==> #[trigger] new[j] == self.buf[j],
            decreases self.length - i,
        {
            new[i] = self.buf[i];
            i += 1;
        }
        let ghost before = self@;
        self.buf = new;
        assert(self@ =~= before);
    }

    /// Adds a timestamp at the end.
    pub fn append(&mut self, value: u64)
        requires
            old(self).well_formed(),
            old(self)@.len() < usize::MAX,
        ensures
            final(self).well_formed(),
            final(self)@ == old(self)@.push(value),
            final(self).capacity() == (if old(self)@.len() == old(self).capacity() {
                grown(old(self).capacity(), old(self)@.len() + 1)
            } else {
                old(self).capacity()
            }),
    {
        if self.length == self.cap() {
            self.grow(self.length + 1);
        }
        let ghost before = self@;
        let at = self.length;
        self.buf[at] = Some(value);
        self.length += 1;
        assert(self@ =~= before.push(value));
    }

    /// The timestamp at `index`, if there is one.
    pub fn at(&self, index: usize) -> (found: Node)
        requires
            self.well_formed(),
        ensures
            found == (if index < self@.len() {
                Some(self@[index as int])
            } else {
                None
            }),
    {
        if self.length > index {
            self.buf[index]
        } else {
            None
        }
    }

    /// A walk over the timestamps from the first on.
    pub fn into_iter(self) -> (walk: ListIterator)
        requires
            self.well_formed(),
        ensures
            walk.well_formed(),
            walk.items() == self@,
            walk.at() == 0,
    {
        ListIterator { current: 0, list: self }
    }
}

/// A place in an array of timestamps from which to walk forward with `next` or backward
/// with `next_back`.
pub struct ListIterator {
    current: usize,
    list: TimestampSaver,
}

impl ListIterator {
    /// The timestamps that are walked.
    pub closed spec fn items(&self) -> Seq<u64> {
        self.list@
    }

    /// The index of the timestamp that comes next; the walk is over where it is not an index.
    pub closed spec fn at(&self) -> nat {
        self.current as nat
    }

    /// The place of the walk lies in a well-formed array or at its end.
    pub closed spec fn well_formed(&self) -> bool {
        self.list.well_formed() && self.current <= self.list.length
    }

    /// The timestamp at the place of the walk, which moves on by one.
    pub fn next(&mut self) -> (item: Option<u64>)
        requires
            old(self).well_formed(),
        ensures
            final(self).well_formed(),
            final(self).items() == old(self).items(),
            old(self).at() < old(self).items().len() ==> item == Some(
                old(self).items()[old(self).at() as int],
            ) && final(self).at() == old(self).at() + 1,
            old(self).at() >= old(self).items().len() ==> item is None && final(self).at() == old(
                self,
            ).at(),
    {
        if self.current < self.list.length {
            let current = self.current;
            self.current += 1;
            self.list.buf[current]
        } else {
            None
        }
    }

    /// The timestamp at the place of the walk, which moves back by one. Behind the first
    /// timestamp the walk is over.
    pub fn next_back(&mut self) -> (item: Option<u64>)
        requires
            old(self).well_formed(),
        ensures
            final(self).well_formed(),
            final(self).items() == old(self).items(),
            old(self).at() < old(self).items().len() ==> item == Some(
                old(self).items()[old(self).at() as int],
            ) && final(self).at() == (if old(self).at() > 0 {
                (old(self).at() - 1) as nat
            } else {
                old(self).items().len()
            }),
            old(self).at() >= old(self).items().len() ==> item is None && final(self).at() == old(
                self,
            ).at(),
    {
        if self.current < self.list.length {
            let current = self.current;
            if current == 0 {
                self.current = self.list.length;
            } else {
                self.current -= 1;
            }
            self.list.buf[current]
        } else {
            None
        }
    }
}

} // verus!
