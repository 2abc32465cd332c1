//! A binary search tree that is not kept in balance.

use crate::model::{ascending, count_of, lemma_lists_len, lists, lookup};
use crate::order::{lemma_transitive, lemma_trichotomy, lt, relate, total_order, Relation};
use vstd::prelude::*;

verus! {

type Tree<K, V> = Option<Box<Node<K, V>>>;

/// A node of a binary search tree, with the subtrees of the lesser and the greater keys.
pub struct Node<K: Ord, V> {
    key: K,
    value: V,
    left: Tree<K, V>,
    right: Tree<K, V>,
}

/// An ordered map as a binary search tree.
pub struct BinarySearchTree<K: Ord, V> {
    root: Tree<K, V>,
    length: usize,
}

/// The pair that two references point to.
pub open spec fn pair_of<K, V>(item: (&K, &V)) -> (K, V) {
    (*item.0, *item.1)
}

impl<K: Ord, V> Node<K, V> {
    /// The key-value pairs held in a subtree.
    pub closed spec fn pairs(t: Tree<K, V>) -> Map<K, V>
        decreases t,
    {
        match t {
            None => Map::empty(),
            Some(n) => Self::pairs(n.left).union_prefer_right(Self::pairs(n.right)).insert(
                n.key,
                n.value,
            ),
        }
    }

    /// The pairs of a subtree from left to right.
    pub closed spec fn in_order(t: Tree<K, V>) -> Seq<(K, V)>
        decreases t,
    {
        match t {
            None => Seq::empty(),
            Some(n) => Self::in_order(n.left) + seq![(n.key, n.value)] + Self::in_order(n.right),
        }
    }

    /// The number of nodes in a subtree.
    pub closed spec fn count(t: Tree<K, V>) -> nat
        decreases t,
    {
        match t {
            None => 0,
            Some(n) => 1 + Self::count(n.left) + Self::count(n.right),
        }
    }

    /// Left of every node stand the smaller keys, right of it the larger.
    pub closed spec fn sorted(t: Tree<K, V>) -> bool
        decreases t,
    {
        match t {
            None => true,
            Some(n) => {
                &&& Self::sorted(n.left)
                &&& Self::sorted(n.right)
                &&& forall|x: K| #[trigger] Self::pairs(n.left).contains_key(x) ==> lt(x, n.key)
                &&& forall|x: K| #[trigger] Self::pairs(n.right).contains_key(x) ==> lt(n.key, x)
            },
        }
    }

    /// The pairs of a subtree in order: its root's own, and those to the left and right.
    proof fn lemma_pairs(t: Tree<K, V>)
        requires
            total_order::<K>(),
            Self::sorted(t),
            t is Some,
        ensures
            forall|x: K| #[trigger]
                Self::pairs(t).contains_key(x) <==> x == t.unwrap().key || Self::pairs(
                    t.unwrap().left,
                ).contains_key(x) || Self::pairs(t.unwrap().right).contains_key(x),
            Self::pairs(t)[t.unwrap().key] == t.unwrap().value,
            forall|x: K| #[trigger]
                Self::pairs(t.unwrap().left).contains_key(x) ==> x != t.unwrap().key
                    && !Self::pairs(t.unwrap().right).contains_key(x) && Self::pairs(t)[x]
                    == Self::pairs(t.unwrap().left)[x],
            forall|x: K| #[trigger]
                Self::pairs(t.unwrap().right).contains_key(x) ==> x != t.unwrap().key
                    && Self::pairs(t)[x] == Self::pairs(t.unwrap().right)[x],
    {
        let n = t.unwrap();
        assert forall|x: K| #[trigger] Self::pairs(n.left).contains_key(x) implies x != n.key
            && !Self::pairs(n.right).contains_key(x) by {
            lemma_trichotomy(x, n.key);
        }
        assert forall|x: K| #[trigger] Self::pairs(n.right).contains_key(x) implies x != n.key by {
            lemma_trichotomy(x, n.key);
        }
    }

    /// A subtree in order holds each key once, and its pairs from left to right ascend.
    proof fn lemma_in_order(t: Tree<K, V>)
        requires
            total_order::<K>(),
            Self::sorted(t),
        ensures
            ascending(Self::in_order(t)),
            lists(Self::in_order(t), Self::pairs(t)),
            Self::in_order(t).len() == Self::count(t),
        decreases t,
    {
        if let Some(n) = t {
            Self::lemma_in_order(n.left);
            Self::lemma_in_order(n.right);
            Self::lemma_pairs(t);
            let l = Self::in_order(n.left);
            let r = Self::in_order(n.right);
            let e = Self::in_order(t);
            let m = Self::pairs(t);
            assert forall|i: int| 0 <= i < e.len() implies (if i < l.len() {
                e[i] == l[i] && Self::pairs(n.left).contains_key(e[i].0) && lt(e[i].0, n.key)
            } else if i == l.len() {
                e[i] == (n.key, n.value)
            } else {
                e[i] == r[i - l.len() - 1] && Self::pairs(n.right).contains_key(e[i].0) && lt(
                    n.key,
                    e[i].0,
                )
            }) by {
                if i < l.len() {
                    assert(lookup(Self::pairs(n.left), l[i].0) == Some(l[i].1));
                } else if i > l.len() {
                    let j = i - l.len() - 1;
                    assert(lookup(Self::pairs(n.right), r[j].0) == Some(r[j].1));
                }
            }
            assert forall|i: int, j: int| 0 <= i < j < e.len() implies lt(
                #[trigger] e[i].0,
                #[trigger] e[j].0,
            ) by {
                if j < l.len() {
                    assert(lt(l[i].0, l[j].0));
                } else if i > l.len() {
                    assert(lt(r[i - l.len() - 1].0, r[j - l.len() - 1].0));
                } else if i < l.len() && j > l.len() {
                    lemma_transitive(e[i].0, n.key, e[j].0);
                }
            }
            assert forall|i: int| 0 <= i < e.len() implies lookup(m, (#[trigger] e[i]).0) == Some(
                e[i].1,
            ) by {
                if i < l.len() {
                    assert(lookup(Self::pairs(n.left), l[i].0) == Some(l[i].1));
                } else if i > l.len() {
                    let j = i - l.len() - 1;
                    assert(lookup(Self::pairs(n.right), r[j].0) == Some(r[j].1));
                }
            }
            assert forall|k: K| #[trigger] m.contains_key(k) implies exists|i: int|
                0 <= i < e.len() && (#[trigger] e[i]).0 == k by {
                if k == n.key {
                    assert(e[l.len() as int].0 == k);
                } else if Self::pairs(n.left).contains_key(k) {
                    let i = choose|i: int| 0 <= i < l.len() && (#[trigger] l[i]).0 == k;
                    assert(e[i].0 == k);
                } else {
                    assert(Self::pairs(n.right).contains_key(k));
                    let i = choose|i: int| 0 <= i < r.len() && (#[trigger] r[i]).0 == k;
                    assert(e[i + l.len() + 1].0 == k);
                }
            }
        }
    }
}

impl<K: Ord, V> View for BinarySearchTree<K, V> {
    type V = Map<K, V>;

    /// The map from each key in the tree to its value.
    closed spec fn view(&self) -> Map<K, V> {
        Node::pairs(self.root)
    }
}

impl<K: Ord, V> Default for BinarySearchTree<K, V> {
    fn default() -> (tree: Self)
        ensures
            tree.well_formed(),
            tree@ == Map::<K, V>::empty(),
    {
        Self { root: None, length: 0 }
    }
}

impl<K: Ord, V> BinarySearchTree<K, V> {
    /// The keys are in search-tree order and `length` counts the nodes.
    pub closed spec fn well_formed(&self) -> bool {
        &&& Node::sorted(self.root)
        &&& self.length == Node::count(self.root)
    }

    /// The pairs of the tree in ascending order of their keys.
    pub closed spec fn entries(&self) -> Seq<(K, V)> {
        Node::in_order(self.root)
    }

    /// The pairs that `walk` visits ascend strictly by key and are the pairs of the map.
    pub proof fn lemma_entries(&self)
        requires
            total_order::<K>(),
            self.well_formed(),
        ensures
            ascending(self.entries()),
            lists(self.entries(), self@),
            self@.dom().finite(),
            self.entries().len() == self@.len(),
    {
        Node::lemma_in_order(self.root);
        lemma_lists_len(self.entries(), self@);
    }

    /// Puts a pair into the subtree `root` and returns the subtree, and whether the key
    /// is new to it.
    fn add_rec(root: Tree<K, V>, key: K, value: V) -> (r: (Box<Node<K, V>>, bool))
        requires
            total_order::<K>(),
            Node::sorted(root),
        ensures
            Node::sorted(Some(r.0)),
            Node::pairs(Some(r.0)) == Node::pairs(root).insert(key, value),
            r.1 == !Node::pairs(root).contains_key(key),
            Node::count(Some(r.0)) + count_of(Node::pairs(root), key) == Node::count(root) + 1,
        decreases root,
    {
        match root {
            None => {
                let node = Box::new(Node { key, value, left: None, right: None });
                assert(Node::pairs(Some(node)) =~= Node::pairs(root).insert(key, value));
                (node, true)
            },
            Some(mut node) => {
                let ghost n0 = *node;
                proof {
                    Node::lemma_pairs(root);
                    lemma_trichotomy(key, n0.key);
                }
                let added = match relate(&key, &node.key) {
                    Relation::Less => {
                        let r = Self::add_rec(node.left.take(), key, value);
                        node.left = Some(r.0);
                        r.1
                    },
                    Relation::Equal => {
                        node.value = value;
                        false
                    },
                    Relation::Greater => {
                        let r = Self::add_rec(node.right.take(), key, value);
                        node.right = Some(r.0);
                        r.1
                    },
                };
                proof {
                    assert(Node::sorted(Some(node)));
                    Node::lemma_pairs(Some(node));
                    assert(Node::pairs(Some(node)) =~= Node::pairs(root).insert(key, value));
                }
                (node, added)
            },
        }
    }

    /// Maps `key` to `value`.
    pub fn add(&mut self, key: K, value: V)
        requires
            total_order::<K>(),
            old(self).well_formed(),
            old(self)@.len() < usize::MAX,
        ensures
            final(self).well_formed(),
            final(self)@ == old(self)@.insert(key, value),
            final(self)@.len() + count_of(old(self)@, key) == old(self)@.len() + 1,
    {
        proof {
            Node::lemma_in_order(self.root);
            lemma_lists_len(Node::in_order(self.root), self@);
        }
        let root = self.root.take();
        let r = Self::add_rec(root, key, value);
        self.root = Some(r.0);
        if r.1 {
            self.length += 1;
        }
        proof {
            Node::lemma_in_order(self.root);
            lemma_lists_len(Node::in_order(self.root), self@);
        }
    }

    fn find_rec<'b>(root: &'b Tree<K, V>, target: &K) -> (found: Option<&'b V>)
        requires
            total_order::<K>(),
            Node::sorted(*root),
        ensures
            found.is_some() == Node::pairs(*root).contains_key(*target),
            found matches Some(value) ==> *value == Node::pairs(*root)[*target],
        decreases *root,
    {
        match root {
            None => None,
            Some(node) => {
                proof {
                    Node::lemma_pairs(*root);
                    lemma_trichotomy(*target, node.key);
                }
                match relate(target, &node.key) {
                    Relation::Less => Self::find_rec(&node.left, target),
                    Relation::Equal => Some(&node.value),
                    Relation::Greater => Self::find_rec(&node.right, target),
                }
            },
        }
    }

    /// The value that `target` maps to, if any.
    pub fn find(&self, target: &K) -> (found: Option<&V>)
        requires
            total_order::<K>(),
            self.well_formed(),
        ensures
            found.is_some() == self@.contains_key(*target),
            found matches Some(value) ==> *value == self@[*target],
    {
        Self::find_rec(&self.root, target)
    }

    /// Lists the pairs of the subtree `root` behind what `seen` holds, from left to right.
    fn walk_rec<'b>(root: &'b Tree<K, V>, seen: &mut Vec<(&'b K, &'b V)>)
        ensures
            final(seen)@.map_values(|item: (&K, &V)| pair_of(item)) == old(seen)@.map_values(
                |item: (&K, &V)| pair_of(item),
            ) + Node::in_order(*root),
        decreases *root,
    {
        let ghost start = seen@.map_values(|item: (&K, &V)| pair_of(item));
        if let Some(node) = root {
            Self::walk_rec(&node.left, seen);
            let ghost mid = seen@;
            seen.push((&node.key, &node.value));
            assert(seen@.map_values(|item: (&K, &V)| pair_of(item)) =~= mid.map_values(
                |item: (&K, &V)| pair_of(item),
            ) + seq![(node.key, node.value)]);
            Self::walk_rec(&node.right, seen);
            assert(seen@.map_values(|item: (&K, &V)| pair_of(item)) =~= start + Node::in_order(
                *root,
            ));
        } else {
            assert(start + Node::in_order(*root) =~= start);
        }
    }

    /// The pairs of the tree in ascending order of their keys.
    pub fn in_order(&self) -> (items: Vec<(&K, &V)>)
        ensures
            items@.map_values(|item: (&K, &V)| pair_of(item)) == self.entries(),
    {
        let mut items = Vec::new();
        Self::walk_rec(&self.root, &mut items);
        assert(items@.map_values(|item: (&K, &V)| pair_of(item)) =~= self.entries());
        items
    }

    /// Calls `callback` with each pair of the tree, in ascending order of the keys.
    pub fn walk<F: FnMut((&K, &V))>(&self, mut callback: F)
        requires
            forall|item: (&K, &V)| #[trigger] callback.requires((item,)),
    {
        let items = self.in_order();
        let mut i: usize = 0;
        while i < items.len()
            invariant
                i <= items.len(),
                forall|item: (&K, &V)| #[trigger] callback.requires((item,)),
            decreases items.len() - i,
        {
            callback(items[i]);
            i += 1;
        }
    }
}

} // verus!
