//! A trie: a map from strings to values that shares the common beginnings of its keys.

use crate::model::lookup;
use std::str::Chars;
use vstd::prelude::*;
use vstd::std_specs::iter::IteratorSpec;
use vstd::string::*;

verus! {

/// A node of a trie: the value of the string that leads to it, if that string has one, and
/// a child for each character by which a longer string goes on.
pub struct Node<T> {
    next: Vec<(char, Node<T>)>,
    value: Option<T>,
}

/// A map from strings to values.
pub struct Trie<T> {
    root: Node<T>,
}

impl<T> Node<T> {
    /// `i` is the first place among `children` that stands for the character `c`.
    pub closed spec fn is_first(children: Seq<(char, Node<T>)>, c: char, i: int) -> bool {
        &&& 0 <= i < children.len()
        &&& children[i].0 == c
        &&& forall|j: int| 0 <= j < i ==> (#[trigger] children[j]).0 != c
    }

    /// The place of the child for the character `c`, if there is one.
    pub closed spec fn child_at(children: Seq<(char, Node<T>)>, c: char) -> Option<int> {
        if exists|i: int| Self::is_first(children, c, i) {
            Some(choose|i: int| Self::is_first(children, c, i))
        } else {
            None
        }
    }

    /// The value that stands at the end of `path`, walked from this node.
    pub closed spec fn value_at(self, path: Seq<char>) -> Option<T>
        decreases path.len(),
    {
        if path.len() == 0 {
            self.value
        } else {
            match Self::child_at(self.next@, path[0]) {
                None => None,
                Some(i) => self.next@[i].1.value_at(path.drop_first()),
            }
        }
    }

    /// A node without children and without a value.
    fn empty() -> (node: Node<T>)
        ensures
            forall|path: Seq<char>| node.value_at(path) is None,
    {
        let node = Node { next: Vec::new(), value: None };
        assert forall|path: Seq<char>| node.value_at(path) is None by {
            if path.len() > 0 {
                assert(Self::child_at(node.next@, path[0]) is None);
            }
        }
        node
    }

    /// The place of the child for the character `c`, if there is one.
    fn find_child(&self, c: char) -> (found: Option<usize>)
        ensures
            found matches Some(i) ==> Self::child_at(self.next@, c) == Some(i as int) && i
                < self.next@.len(),
            found is None ==> Self::child_at(self.next@, c) is None && forall|j: int|
                0 <= j < self.next@.len() ==> (#[trigger] self.next@[j]).0 != c,
    {
        let mut i: usize = 0;
        while i < self.next.len()
            invariant
                i <= self.next.len(),
                forall|j: int| 0 <= j < i ==> (#[trigger] self.next@[j]).0 != c,
            decreases self.next.len() - i,
        {
            if self.next[i].0 == c {
                proof {
                    assert(Self::is_first(self.next@, c, i as int));
                    let k = choose|k: int| Self::is_first(self.next@, c, k);
                    assert(k == i) by {
                        if k < i {
                            assert(self.next@[k].0 != c);
                        }
                        if i < k {
                            assert(self.next@[i as int].0 != c);
                        }
                    }
                }
                return Some(i);
            }
            i += 1;
        }
        None
    }

    /// Walks the characters that `rest` still holds, adding the nodes that are missing on
    /// the way, and puts `value` at the end of the walk. Returns the value that stood there.
    fn add_rec(&mut self, rest: Chars<'_>, value: T) -> (replaced: Option<T>)
        requires
            rest.decrease() is Some,
        ensures
            replaced == old(self).value_at(rest.remaining()),
            forall|path: Seq<char>|
                #[trigger] final(self).value_at(path) == (if path == rest.remaining() {
                    Some(value)
                } else {
                    old(self).value_at(path)
                }),
        decreases rest.decrease()->0,
    {
        let ghost whole = rest.remaining();
        let mut rest = rest;
        let ghost before = *self;
        match rest.next() {
            None => {
                let ghost given = value;
                let mut slot = Some(value);
                std::mem::swap(&mut slot, &mut self.value);
                assert forall|path: Seq<char>| #[trigger]
                    self.value_at(path) == (if path == whole {
                        Some(given)
                    } else {
                        before.value_at(path)
                    }) by {
                    if path.len() == 0 {
                        assert(path =~= whole);
                    }
                }
                slot
            },
            Some(c) => {
                let at = match self.find_child(c) {
                    Some(at) => at,
                    None => {
                        let fresh = Self::empty();
                        self.next.push((c, fresh));
                        let at = self.next.len() - 1;
                        proof {
                            assert(self.next@.drop_last() =~= before.next@);
                            assert(self.next@.last() == (c, fresh));
                            assert(Self::is_first(self.next@, c, at as int));
                            let k = choose|k: int| Self::is_first(self.next@, c, k);
                            if k < at {
                                assert(before.next@[k].0 != c);
                            }
                        }
                        at
                    },
                };
                let ghost mid = *self;
                assert(Self::child_at(mid.next@, c) == Some(at as int));
                assert forall|path: Seq<char>| #[trigger]
                    mid.value_at(path) == before.value_at(path) by {
                    if path.len() > 0 {
                        Self::lemma_same_children(before.next@, mid.next@, path[0]);
                        match Self::child_at(before.next@, path[0]) {
                            Some(i) => {},
                            None => {
                                if let Some(i) = Self::child_at(mid.next@, path[0]) {
                                    assert(mid.next@[i].1.value_at(path.drop_first()) is None);
                                }
                            },
                        }
                    }
                }
                let ghost tail = rest.remaining();
                assert(tail == whole.drop_first() && whole[0] == c && whole.len() > 0);
                let replaced = self.next[at].1.add_rec(rest, value);
                proof {
                    assert(self.value == mid.value);
                    assert(self.next@.len() == mid.next@.len());
                    assert(self.next@[at as int].0 == c);
                    assert forall|j: int| 0 <= j < mid.next@.len() && j != at implies #[trigger] self.next@[j] == mid.next@[j] by {}
                    assert(replaced == before.value_at(whole)) by {
                        assert(mid.value_at(whole) == mid.next@[at as int].1.value_at(tail));
                    }
                    assert forall|path: Seq<char>| #[trigger]
                        self.value_at(path) == (if path == whole {
                            Some(value)
                        } else {
                            before.value_at(path)
                        }) by {
                        if path.len() > 0 {
                            if path[0] == c {
                                assert(Self::is_first(self.next@, c, at as int)) by {
                                    assert(Self::is_first(mid.next@, c, at as int));
                                    assert forall|j: int| 0 <= j < at implies (
                                    #[trigger] self.next@[j]).0 != c by {
                                        assert(self.next@[j] == mid.next@[j]);
                                    }
                                }
                                let k = choose|k: int| Self::is_first(self.next@, c, k);
                                assert(k == at) by {
                                    if k < at {
                                        assert(self.next@[k].0 != c);
                                    }
                                    if at < k {
                                        assert(self.next@[at as int].0 != c);
                                    }
                                }
                                assert(self.value_at(path) == self.next@[at as int].1.value_at(
                                    path.drop_first(),
                                ));
                                assert(mid.value_at(path) == mid.next@[at as int].1.value_at(
                                    path.drop_first(),
                                ));
                                assert(path == whole <==> path.drop_first()
                                    == whole.drop_first()) by {
                                    if path.drop_first() == whole.drop_first() {
                                        assert(path =~= seq![c] + path.drop_first());
                                        assert(whole =~= seq![c] + whole.drop_first());
                                    }
                                }
                            } else {
                                assert(path != whole);
                                Self::lemma_other_children(mid.next@, self.next@, at as int, path[0]);
                            }
                        } else {
                            assert(path != whole);
                        }
                    }
                }
                replaced
            },
        }
    }

    /// A child added behind the others, for a character that has no child yet, changes
    /// nothing for the walks that led somewhere.
    proof fn lemma_same_children(
        before: Seq<(char, Node<T>)>,
        after: Seq<(char, Node<T>)>,
        c: char,
    )
        requires
            after == before || (after.len() == before.len() + 1 && after.drop_last() == before
                && Self::child_at(before, after.last().0) is None && forall|path: Seq<char>|
                after.last().1.value_at(path) is None),
        ensures
            match Self::child_at(before, c) {
                Some(i) => Self::child_at(after, c) == Some(i) && after[i] == before[i],
                None => match Self::child_at(after, c) {
                    Some(i) => forall|path: Seq<char>| after[i].1.value_at(path) is None,
                    None => true,
                },
            },
    {
        if after != before {
            assert forall|j: int| 0 <= j < before.len() implies after[j] == before[j] by {
                assert(after.drop_last()[j] == before[j]);
            }
            match Self::child_at(before, c) {
                Some(i) => {
                    assert(Self::is_first(before, c, i));
                    assert(Self::is_first(after, c, i));
                    let k = choose|k: int| Self::is_first(after, c, k);
                    if k < i {
                        assert(after[k].0 != c);
                    }
                    if i < k {
                        assert(after[i].0 != c);
                    }
                },
                None => {
                    if let Some(i) = Self::child_at(after, c) {
                        assert(Self::is_first(after, c, i));
                        if i < before.len() {
                            assert(Self::is_first(before, c, i));
                        }
                    }
                },
            }
        }
    }

    /// A change to one child changes nothing for the walks that start with the character
    /// of another.
    proof fn lemma_other_children(
        before: Seq<(char, Node<T>)>,
        after: Seq<(char, Node<T>)>,
        at: int,
        c: char,
    )
        requires
            0 <= at < before.len(),
            after.len() == before.len(),
            before[at].0 != c,
            forall|j: int| 0 <= j < before.len() ==> (#[trigger] after[j]).0 == before[j].0,
            forall|j: int| 0 <= j < before.len() && j != at ==> #[trigger] after[j] == before[j],
        ensures
            Self::child_at(after, c) == Self::child_at(before, c),
            Self::child_at(before, c) matches Some(i) ==> after[i] == before[i],
    {
        assert forall|i: int| Self::is_first(before, c, i) == Self::is_first(after, c, i) by {
            if Self::is_first(before, c, i) {
                assert forall|j: int| 0 <= j < i implies (#[trigger] after[j]).0 != c by {
                    assert(before[j].0 != c);
                }
            }
            if Self::is_first(after, c, i) {
                assert forall|j: int| 0 <= j < i implies (#[trigger] before[j]).0 != c by {
                    assert(after[j].0 != c);
                }
            }
        }
        if let Some(i) = Self::child_at(before, c) {
            assert(Self::is_first(before, c, i));
        }
    }
}

impl<T> View for Trie<T> {
    type V = Map<Seq<char>, T>;

    /// The map from each string that has a value to that value. The empty string has none.
    closed spec fn view(&self) -> Map<Seq<char>, T> {
        Map::new(
            |path: Seq<char>| path.len() > 0 && self.root.value_at(path) is Some,
            |path: Seq<char>| self.root.value_at(path).unwrap(),
        )
    }
}

impl<T> Default for Trie<T> {
    fn default() -> (trie: Self)
        ensures
            trie@ == Map::<Seq<char>, T>::empty(),
    {
        let trie = Trie { root: Node::empty() };
        assert(trie@ =~= Map::<Seq<char>, T>::empty());
        trie
    }
}

impl<T> Trie<T> {
    /// Maps `path` to `value` and returns the value that `path` had before, if any. The
    /// empty string is no key: nothing is kept for it.
    pub fn add(&mut self, path: &str, value: T) -> (replaced: Option<T>)
        ensures
            path@.len() == 0 ==> replaced is None && final(self)@ == old(self)@,
            path@.len() > 0 ==> replaced == lookup(old(self)@, path@) && final(self)@ == old(
                self,
            )@.insert(path@, value),
    {
        let mut first = path.chars();
        if first.next().is_none() {
            return None;
        }
        let mut chars = path.chars();
        let replaced = self.root.add_rec(chars, value);
        assert(self@ =~= old(self)@.insert(path@, value));
        replaced
    }

    /// The value that `path` maps to, if any.
    pub fn find(&self, path: &str) -> (found: Option<&T>)
        ensures
            found.is_some() == self@.contains_key(path@),
            found matches Some(value) ==> *value == self@[path@],
    {
        let mut chars = path.chars();
        let mut node = &self.root;
        let mut walked = false;
        loop
            invariant
                chars.decrease() is Some,
                self.root.value_at(path@) == node.value_at(chars.remaining()),
                walked == (chars.remaining().len() < path@.len()),
                chars.remaining().len() <= path@.len(),
            decreases chars.decrease()->0,
        {
            match chars.next() {
                None => {
                    if !walked {
                        return None;
                    }
                    return node.value.as_ref();
                },
                Some(c) => {
                    match node.find_child(c) {
                        None => {
                            return None;
                        },
                        Some(at) => {
                            node = &node.next[at].1;
                            walked = true;
                        },
                    }
                },
            }
        }
    }
}

} // verus!
