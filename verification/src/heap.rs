//! A binary min-heap in a vector.

use crate::order::{le, lemma_le_transitive, lemma_trichotomy, lt, relate, total_order, Relation};
use vstd::multiset::Multiset;
use vstd::prelude::*;

verus! {

/// A collection of values from which the least is taken first.
pub struct Heap<T: Ord> {
    heap: Vec<T>,
}

/// The index of the parent of the node at index `i`.
pub open spec fn parent(i: int) -> int {
    (i - 1) / 2
}

/// Below index `end`, every node but the root holds a value that is not less than the value
/// of its parent. Pairs of a node and its parent that the node at `hole` takes part in are
/// left out; instead, no child of `hole` holds less than the parent of `hole`. With `hole`
/// at or behind `end`, nothing is left out.
pub open spec fn ordered_but<T: Ord>(s: Seq<T>, end: int, hole: int) -> bool {
    &&& forall|i: int|
        1 <= i < end && i != hole && parent(i) != hole ==> le(s[parent(i)], #[trigger] s[i])
    &&& forall|i: int|
        1 <= i < end && parent(i) == hole && hole >= 1 ==> le(s[parent(hole)], #[trigger] s[i])
}

/// Below index `end`, every node but the root and the node at `hole` holds a value that is
/// not less than the value of its parent, and no child of `hole` holds less than the parent of
/// `hole`. With `hole` at or behind `end`, the part below `end` is a heap.
pub open spec fn ordered_above<T: Ord>(s: Seq<T>, end: int, hole: int) -> bool {
    &&& forall|i: int| 1 <= i < end && i != hole ==> le(s[parent(i)], #[trigger] s[i])
    &&& forall|i: int|
        1 <= i < end && parent(i) == hole && hole >= 1 ==> le(s[parent(hole)], #[trigger] s[i])
}

/// Every node but the root holds a value that is not less than the value of its parent.
pub open spec fn ordered<T: Ord>(s: Seq<T>) -> bool {
    forall|i: int| 1 <= i < s.len() ==> le(s[parent(i)], #[trigger] s[i])
}

/// Exchanges the values at two indices of a vector. This is `swap` of the standard library's
/// slices, which panics on an index outside the slice, and is taken at its word: the value
/// at each of the two indices becomes the one that stood at the other, and nothing else
/// changes.
#[verifier::external_body]
fn exchange<T>(v: &mut Vec<T>, a: usize, b: usize)
    requires
        a < old(v).len(),
        b < old(v).len(),
    ensures
        final(v)@ == old(v)@.update(a as int, old(v)@[b as int]).update(b as int, old(v)@[a as int]),
{
    v.swap(a, b);
}

/// Exchanging two values of a sequence keeps what it holds.
proof fn lemma_exchange_keeps<T>(s: Seq<T>, a: int, b: int)
    requires
        0 <= a < s.len(),
        0 <= b < s.len(),
    ensures
        s.update(a, s[b]).update(b, s[a]).to_multiset() == s.to_multiset(),
{
    broadcast use vstd::seq_lib::group_to_multiset_ensures;

    let t = s.update(a, s[b]);
    vstd::seq_lib::to_multiset_update(s, a, s[b]);
    vstd::seq_lib::to_multiset_update(t, b, s[a]);
    assert(t[b] == if a == b {
        s[b]
    } else {
        s[b]
    });
    assert(s.update(a, s[b]).update(b, s[a]).to_multiset() =~= s.to_multiset());
}

/// In a heap the root holds the least value.
proof fn lemma_root_least<T: Ord>(s: Seq<T>, i: int)
    requires
        total_order::<T>(),
        ordered(s),
        0 <= i < s.len(),
    ensures
        le(s[0], s[i]),
    decreases i,
{
    if i == 0 {
        lemma_trichotomy(s[0], s[0]);
    } else {
        lemma_root_least(s, parent(i));
        lemma_le_transitive(s[0], s[parent(i)], s[i]);
    }
}

impl<T: Ord> View for Heap<T> {
    type V = Multiset<T>;

    /// The values in the heap, each as often as it was pushed and not yet popped.
    closed spec fn view(&self) -> Multiset<T> {
        self.heap@.to_multiset()
    }
}

impl<T: Ord> Default for Heap<T> {
    fn default() -> (heap: Self)
        ensures
            heap.well_formed(),
            heap@ == Multiset::<T>::empty(),
    {
        let heap = Self { heap: Vec::new() };
        proof {
            broadcast use vstd::seq_lib::group_to_multiset_ensures;

            assert(heap.heap@ =~= Seq::<T>::empty());
            assert(heap@ =~= Multiset::<T>::empty());
        }
        heap
    }
}

impl<T: Ord> Heap<T> {
    /// No value in the heap is less than the value of its parent.
    pub closed spec fn well_formed(&self) -> bool {
        ordered(self.heap@)
    }

    /// The number of values in the heap.
    pub open spec fn len(&self) -> nat {
        self@.len()
    }

    /// Adds a value to the heap.
    pub fn push(&mut self, val: T)
        requires
            total_order::<T>(),
            old(self).well_formed(),
        ensures
            final(self).well_formed(),
            final(self)@ == old(self)@.insert(val),
            final(self).len() == old(self).len() + 1,
    {
        let cur_index = self.heap.len();
        self.heap.push(val);
        proof {
            broadcast use vstd::seq_lib::group_to_multiset_ensures;

            assert(self.heap@ =~= old(self).heap@.push(val));
            assert forall|i: int|
                1 <= i < self.heap@.len() && i != cur_index && parent(i) != cur_index implies le(
                self.heap@[parent(i)],
                #[trigger] self.heap@[i],
            ) by {
                assert(le(old(self).heap@[parent(i)], old(self).heap@[i]));
            }
        }
        self.fix_up(cur_index, Ghost(self.heap.len() as int));
    }

    /// Moves the value at `index` up, past every ancestor that holds more, until the part
    /// of the vector below `end` is a heap again.
    fn fix_up(&mut self, index: usize, Ghost(end): Ghost<int>)
        requires
            total_order::<T>(),
            index < end <= old(self).heap@.len(),
            ordered_above(old(self).heap@, end, index as int),
        ensures
            final(self).heap@.len() == old(self).heap@.len(),
            ordered_above(final(self).heap@, end, end),
            final(self)@ == old(self)@,
            forall|i: int|
                index < i < final(self).heap@.len() ==> final(self).heap@[i] == old(self).heap@[i],
    {
        let start = index;
        let mut index = index;
        while index > 0
            invariant
                total_order::<T>(),
                index <= start < end <= self.heap@.len(),
                self.heap@.len() == old(self).heap@.len(),
                ordered_above(self.heap@, end, index as int),
                self@ == old(self)@,
                forall|i: int| start < i < self.heap@.len() ==> self.heap@[i] == old(self).heap@[i],
            ensures
                ordered_above(self.heap@, end, end),
            decreases index,
        {
            let parent_index = (index - 1) / 2;
            assert(parent_index == parent(index as int));
            let ghost s = self.heap@;
            let stays = match relate(&self.heap[parent_index], &self.heap[index]) {
                Relation::Greater => false,
                _ => true,
            };
            proof {
                lemma_trichotomy(s[parent_index as int], s[index as int]);
            }
            if stays {
                break ;
            }
            exchange(&mut self.heap, parent_index, index);
            proof {
                lemma_exchange_keeps(s, parent_index as int, index as int);
                let t = self.heap@;
                assert forall|i: int| 1 <= i < end && i != parent_index implies le(
                    t[parent(i)],
                    #[trigger] t[i],
                ) by {
                    if i == index {
                    } else if parent(i) == index {
                        assert(le(s[parent(index as int)], s[i]));
                    } else if parent(i) == parent_index {
                        assert(le(s[parent_index as int], s[i]));
                        lemma_le_transitive(s[index as int], s[parent_index as int], s[i]);
                    } else {
                        assert(le(s[parent(i)], s[i]));
                    }
                }
                assert forall|i: int|
                    1 <= i < end && parent(i) == parent_index && parent_index >= 1 implies le(
                    t[parent(parent_index as int)],
                    #[trigger] t[i],
                ) by {
                    assert(le(s[parent(parent_index as int)], s[parent_index as int]));
                    if i != index {
                        assert(le(s[parent_index as int], s[i]));
                        lemma_le_transitive(
                            s[parent(parent_index as int)],
                            s[parent_index as int],
                            s[i],
                        );
                    }
                }
            }
            index = parent_index;
        }
    }

    /// Takes the least value out of the heap. The root's value sinks, changing places with
    /// the lesser child each time, until it has changed places with the last value of the
    /// vector, which then moves up as far as it has to.
    pub fn pop(&mut self) -> (popped: Option<T>)
        requires
            total_order::<T>(),
            old(self).well_formed(),
        ensures
            final(self).well_formed(),
            old(self).len() == 0 ==> popped is None && final(self)@ == old(self)@,
            old(self).len() > 0 ==> popped is Some && old(self)@.contains(popped.unwrap())
                && final(self)@ == old(self)@.remove(popped.unwrap()) && final(self).len() + 1
                == old(self).len() && forall|x: T|
                old(self)@.contains(x) ==> le(popped.unwrap(), x),
    {
        proof {
            broadcast use vstd::seq_lib::group_to_multiset_ensures;
        }
        if self.heap.len() == 0 {
            return None;
        }
        let last_index = self.heap.len() - 1;
        let ghost start = self.heap@;
        proof {
            assert forall|i: int| 0 <= i < start.len() implies le(start[0], #[trigger] start[i]) by {
                lemma_root_least(start, i);
            }
        }
        let mut cur_index: usize = 0;
        while cur_index < last_index
            invariant
                total_order::<T>(),
                cur_index <= last_index == self.heap@.len() - 1,
                self.heap@.len() == start.len(),
                self@ == old(self)@,
                self.heap@[cur_index as int] == start[0],
                ordered_but(self.heap@, self.heap@.len() as int, cur_index as int),
            decreases last_index - cur_index,
        {
            let ghost s = self.heap@;
            let (swap_index, need_fix_up) = if cur_index > (last_index - 1) / 2 {
                (last_index, true)
            } else {
                let left_index = cur_index * 2 + 1;
                if left_index < last_index {
                    let right_index = left_index + 1;
                    proof {
                        lemma_trichotomy(s[left_index as int], s[right_index as int]);
                    }
                    match relate(&self.heap[left_index], &self.heap[right_index]) {
                        Relation::Less => (left_index, false),
                        _ => (right_index, false),
                    }
                } else {
                    (last_index, false)
                }
            };
            exchange(&mut self.heap, cur_index, swap_index);
            proof {
                lemma_exchange_keeps(s, cur_index as int, swap_index as int);
                let t = self.heap@;
                let n = s.len() as int;
                if need_fix_up {
                    assert forall|i: int| 1 <= i < last_index && i != cur_index implies le(
                        t[parent(i)],
                        #[trigger] t[i],
                    ) by {
                        assert(le(s[parent(i)], s[i]));
                    }
                } else {
                    assert(parent(swap_index as int) == cur_index);
                    assert forall|i: int|
                        1 <= i < n && i != swap_index && parent(i) != swap_index implies le(
                        t[parent(i)],
                        #[trigger] t[i],
                    ) by {
                        if i == cur_index {
                            assert(le(s[parent(cur_index as int)], s[swap_index as int]));
                        } else if parent(i) == cur_index {
                        } else {
                            assert(le(s[parent(i)], s[i]));
                        }
                    }
                    assert forall|i: int|
                        1 <= i < n && parent(i) == swap_index && swap_index >= 1 implies le(
                        t[parent(swap_index as int)],
                        #[trigger] t[i],
                    ) by {
                        assert(le(s[parent(i)], s[i]));
                    }
                }
            }
            if need_fix_up {
                self.fix_up(cur_index, Ghost(last_index as int));
            }
            cur_index = swap_index;
        }
        let ghost s = self.heap@;
        let popped = self.heap.pop();
        proof {
            broadcast use vstd::seq_lib::group_to_multiset_ensures;

            assert(s =~= self.heap@.push(start[0]));
            assert(self.heap@.push(start[0]).to_multiset() =~= self@.insert(start[0]));
            assert(self@ =~= old(self)@.remove(start[0]));
            assert forall|i: int| 1 <= i < self.heap@.len() implies le(
                self.heap@[parent(i)],
                #[trigger] self.heap@[i],
            ) by {
                assert(le(s[parent(i)], s[i]));
            }
            assert forall|x: T| old(self)@.contains(x) implies le(start[0], x) by {
                start.to_multiset_ensures();
                assert(start.contains(x));
                let i = choose|i: int| 0 <= i < start.len() && start[i] == x;
                assert(le(start[0], start[i]));
            }
            start.to_multiset_ensures();
            assert(start.contains(start[0]));
        }
        popped
    }
}

/// Takes the values out of a heap, the least first.
pub struct DrainIter<'h, T: Ord> {
    pub heap: &'h mut Heap<T>,
}

impl<'h, T: Ord> DrainIter<'h, T> {
    /// The values that are still to come: those of the heap.
    pub open spec fn left(&self) -> Multiset<T> {
        self.heap@
    }

    /// The heap that is drained is well-formed.
    pub open spec fn well_formed(&self) -> bool {
        self.heap.well_formed()
    }

    /// The least value that is left, if any.
    pub fn next(&mut self) -> (item: Option<T>)
        requires
            total_order::<T>(),
            old(self).well_formed(),
        ensures
            final(self).well_formed(),
            *final(final(self).heap) == *final(old(self).heap),
            old(self).left().len() == 0 ==> item is None && final(self).left() == old(self).left(),
            old(self).left().len() > 0 ==> item is Some && old(self).left().contains(item.unwrap())
                && final(self).left() == old(self).left().remove(item.unwrap()) && forall|x: T|
                old(self).left().contains(x) ==> le(item.unwrap(), x),
    {
        proof {
            broadcast use vstd::seq_lib::group_to_multiset_ensures;
        }
        self.heap.pop()
    }
}

impl<T: Ord> Heap<T> {
    /// Starts to take the values out of the heap, the least first.
    pub fn drain(&mut self) -> (iter: DrainIter<'_, T>)
        requires
            old(self).well_formed(),
        ensures
            iter.well_formed(),
            iter.left() == old(self)@,
            *final(self) == *final(iter.heap),
    {
        DrainIter { heap: self }
    }
}

} // verus!
