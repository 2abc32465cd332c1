//! A red-black tree: an ordered map whose height stays logarithmic.
//!
//! A node owns its two subtrees. The way back to a parent is the chain of
//! owners: every operation that has to look upward does so while it unwinds
//! from the position it descended to.

use crate::model::{ascending, count_of, lists, lookup};
use crate::order::{lemma_transitive, lemma_trichotomy, lt, relate, total_order, Relation};
use vstd::prelude::*;

verus! {

/// The color of a node.
#[derive(Clone, Copy, Debug)]
pub enum Color {
    Red,
    Black,
}

/// The nodes of a tree in their places, each with its key and its color: all of a tree but
/// the values.
pub enum Outline<K> {
    Leaf,
    Fork(Box<Outline<K>>, K, Color, Box<Outline<K>>),
}

/// What an insertion below one side of a node has left to repair at that node, which is the
/// grandparent of a red node with a red parent, if there is any.
pub enum AddCase {
    /// No red node with a red parent on that side.
    Settled,
    /// The red parent has a red sibling, the uncle.
    UncleRed,
    /// The uncle is black or missing, and the red child hangs on the outer side of its
    /// parent: on the side on which the parent hangs below the node.
    Line,
    /// The uncle is black or missing, and the red child hangs on the inner side of its
    /// parent.
    Triangle,
}

/// What a removal that has left one side of a node a black node short meets on the other
/// side: the sibling.
pub enum RemoveCase {
    /// The sibling is red.
    SiblingRed,
    /// The sibling is black, and its far child, the one away from the short side, is red.
    FarRed,
    /// The sibling is black, its far child black or missing, and its near child red.
    NearRed,
    /// The sibling is black, and its children are black or missing.
    BothBlack,
}

/// A node of a red-black tree: a pair, a color, and the subtrees of the lesser and the greater
/// keys, which it owns.
pub struct Node<K: Ord, V> {
    key: K,
    value: V,
    color: Color,
    left: Option<Box<Node<K, V>>>,
    right: Option<Box<Node<K, V>>>,
}

/// An ordered map as a red-black tree.
pub struct RedBlackTree<K: Ord, V> {
    root: Option<Box<Node<K, V>>>,
    length: usize,
}

/// What `validate` reports of a subtree.
pub struct ValidationResult {
    pub red_red_count: usize,
    pub black_height_min: usize,
    pub black_height_max: usize,
}

impl ValidationResult {
    /// Whether no red node with a red parent was counted, and the shortest path is as long
    /// as the longest.
    pub fn is_valid(&self) -> (valid: bool)
        ensures
            valid == (self.red_red_count == 0 && self.black_height_min == self.black_height_max),
    {
        self.red_red_count == 0 && self.black_height_min == self.black_height_max
    }
}

/// 2 to the power of `n`.
pub open spec fn two_to(n: nat) -> nat
    decreases n,
{
    if n == 0 {
        1
    } else {
        2 * two_to((n - 1) as nat)
    }
}

/// The powers of 2 grow with their exponents.
pub proof fn lemma_two_to_grows(a: nat, b: nat)
    requires
        a <= b,
    ensures
        two_to(a) <= two_to(b),
    decreases b,
{
    if a < b {
        lemma_two_to_grows(a, (b - 1) as nat);
    }
}

/// The lesser of two numbers.
pub open spec fn min_nat(a: nat, b: nat) -> nat {
    if a <= b {
        a
    } else {
        b
    }
}

/// The greater of two numbers.
pub open spec fn max_nat(a: nat, b: nat) -> nat {
    if a >= b {
        a
    } else {
        b
    }
}

impl<K: Ord, V> Node<K, V> {
    /// The key-value pairs held in a subtree.
    pub closed spec fn map_of(t: Option<Box<Node<K, V>>>) -> Map<K, V>
        decreases t,
    {
        match t {
            None => Map::empty(),
            Some(n) => Self::map_of(n.right).union_prefer_right(Self::map_of(n.left)).insert(
                n.key,
                n.value,
            ),
        }
    }

    /// The pairs of a subtree from left to right.
    pub closed spec fn entries_of(t: Option<Box<Node<K, V>>>) -> Seq<(K, V)>
        decreases t,
    {
        match t {
            None => Seq::empty(),
            Some(n) => Self::entries_of(n.left).push((n.key, n.value)) + Self::entries_of(n.right),
        }
    }

    /// The nodes of a subtree in their places, with their keys and colors.
    pub closed spec fn outline(t: Option<Box<Node<K, V>>>) -> Outline<K>
        decreases t,
    {
        match t {
            None => Outline::Leaf,
            Some(n) => Outline::Fork(
                Box::new(Self::outline(n.left)),
                n.key,
                n.color,
                Box::new(Self::outline(n.right)),
            ),
        }
    }

    /// The number of nodes in a subtree.
    pub closed spec fn size(t: Option<Box<Node<K, V>>>) -> nat
        decreases t,
    {
        match t {
            None => 0,
            Some(n) => Self::size(n.left) + Self::size(n.right) + 1,
        }
    }

    /// Every key of `t` sorts before `k`.
    pub closed spec fn all_before(t: Option<Box<Node<K, V>>>, k: K) -> bool {
        forall|x: K| #[trigger] Self::map_of(t).contains_key(x) ==> lt(x, k)
    }

    /// Every key of `t` sorts after `k`.
    pub closed spec fn all_after(t: Option<Box<Node<K, V>>>, k: K) -> bool {
        forall|x: K| #[trigger] Self::map_of(t).contains_key(x) ==> lt(k, x)
    }

    /// The search-tree order: left of every node the smaller keys, right of it the larger.
    pub closed spec fn ordered(t: Option<Box<Node<K, V>>>) -> bool
        decreases t,
    {
        match t {
            None => true,
            Some(n) => {
                &&& Self::ordered(n.left)
                &&& Self::ordered(n.right)
                &&& Self::all_before(n.left, n.key)
                &&& Self::all_after(n.right, n.key)
            },
        }
    }

    /// The number of nodes on the longest path from the root of `t` down to a missing
    /// subtree.
    pub closed spec fn height(t: Option<Box<Node<K, V>>>) -> nat
        decreases t,
    {
        match t {
            None => 0,
            Some(n) => 1 + max_nat(Self::height(n.left), Self::height(n.right)),
        }
    }

    /// The root of `t` is a red node. A missing subtree counts as black.
    pub closed spec fn is_red(t: Option<Box<Node<K, V>>>) -> bool {
        match t {
            None => false,
            Some(n) => n.color is Red,
        }
    }

    /// The color that the root of `t` shows to its parent.
    pub closed spec fn color_of(t: Option<Box<Node<K, V>>>) -> Color {
        match t {
            None => Color::Black,
            Some(n) => n.color,
        }
    }

    /// 1 for a black node, 0 for a red one.
    pub open spec fn black_count(c: Color) -> nat {
        match c {
            Color::Red => 0,
            Color::Black => 1,
        }
    }

    /// Black nodes on the leftmost path of `t`, the missing subtree at its end counted as one.
    pub closed spec fn black_height(t: Option<Box<Node<K, V>>>) -> nat
        decreases t,
    {
        match t {
            None => 1,
            Some(n) => Self::black_height(n.left) + Self::black_count(n.color),
        }
    }

    /// Every path from a node of `t` down to a missing subtree passes the same number of
    /// black nodes.
    pub closed spec fn balanced(t: Option<Box<Node<K, V>>>) -> bool
        decreases t,
    {
        match t {
            None => true,
            Some(n) => {
                &&& Self::balanced(n.left)
                &&& Self::balanced(n.right)
                &&& Self::black_height(n.left) == Self::black_height(n.right)
            },
        }
    }

    /// No red node of `t` has a red child.
    pub closed spec fn red_ok(t: Option<Box<Node<K, V>>>) -> bool
        decreases t,
    {
        match t {
            None => true,
            Some(n) => {
                &&& Self::red_ok(n.left)
                &&& Self::red_ok(n.right)
                &&& (n.color is Red ==> !Self::is_red(n.left) && !Self::is_red(n.right))
            },
        }
    }

    /// Red nodes with a red parent in `t`, where the root's parent has `parent_color`.
    pub closed spec fn red_red_count(t: Option<Box<Node<K, V>>>, parent_color: Color) -> nat
        decreases t,
    {
        match t {
            None => 0,
            Some(n) => Self::red_red_count(n.left, n.color) + Self::red_red_count(
                n.right,
                n.color,
            ) + (if n.color is Red && parent_color is Red {
                1nat
            } else {
                0nat
            }),
        }
    }

    /// The fewest black nodes on a path from the root of `t` down to a missing subtree.
    pub closed spec fn black_height_min(t: Option<Box<Node<K, V>>>) -> nat
        decreases t,
    {
        match t {
            None => 1,
            Some(n) => Self::black_count(n.color) + min_nat(
                Self::black_height_min(n.left),
                Self::black_height_min(n.right),
            ),
        }
    }

    /// The most black nodes on a path from the root of `t` down to a missing subtree.
    pub closed spec fn black_height_max(t: Option<Box<Node<K, V>>>) -> nat
        decreases t,
    {
        match t {
            None => 1,
            Some(n) => Self::black_count(n.color) + max_nat(
                Self::black_height_max(n.left),
                Self::black_height_max(n.right),
            ),
        }
    }

    /// Under the coloring rules no path is more than twice as long as the black height says,
    /// and the nodes are at least as many as a full tree of black nodes of that height has.
    proof fn lemma_height(t: Option<Box<Node<K, V>>>)
        requires
            Self::red_ok(t),
            Self::balanced(t),
        ensures
            Self::black_height(t) >= 1,
            Self::height(t) + 2 <= 2 * Self::black_height(t) + (if Self::is_red(t) {
                1nat
            } else {
                0nat
            }),
            two_to((Self::black_height(t) - 1) as nat) <= Self::size(t) + 1,
        decreases t,
    {
        if let Some(n) = t {
            Self::lemma_height(n.left);
            Self::lemma_height(n.right);
        }
    }

    /// The counts that `validate` returns are bounded by the size of the subtree.
    proof fn lemma_counts_bounded(t: Option<Box<Node<K, V>>>, parent_color: Color)
        ensures
            Self::red_red_count(t, parent_color) <= Self::size(t),
            Self::black_height_min(t) <= Self::black_height_max(t) <= Self::size(t) + 1,
            1 <= Self::black_height_min(t),
            1 <= Self::black_height(t),
        decreases t,
    {
        if let Some(n) = t {
            Self::lemma_counts_bounded(n.left, n.color);
            Self::lemma_counts_bounded(n.right, n.color);
        }
    }

    /// The shortest and the longest path agree exactly on the balanced subtrees, and the
    /// count of red-red pairs is zero exactly where no red node has a red child.
    proof fn lemma_counts_meaning(t: Option<Box<Node<K, V>>>, parent_color: Color)
        ensures
            Self::black_height_min(t) == Self::black_height_max(t) <==> Self::balanced(t),
            Self::balanced(t) ==> Self::black_height_min(t) == Self::black_height(t),
            Self::red_red_count(t, parent_color) == 0 <==> Self::red_ok(t) && !(Self::is_red(t)
                && parent_color is Red),
        decreases t,
    {
        if let Some(n) = t {
            Self::lemma_counts_meaning(n.left, n.color);
            Self::lemma_counts_meaning(n.right, n.color);
            Self::lemma_counts_bounded(n.left, n.color);
            Self::lemma_counts_bounded(n.right, n.color);
        }
    }

    /// Counts the red-red pairs of a subtree and measures its shortest and longest path in
    /// black nodes, bottom-up.
    pub fn validate(tree: &Option<Box<Node<K, V>>>, parent_color: Color) -> (result:
        ValidationResult)
        requires
            Self::size(*tree) < usize::MAX,
        ensures
            result.red_red_count == Self::red_red_count(*tree, parent_color),
            result.black_height_min == Self::black_height_min(*tree),
            result.black_height_max == Self::black_height_max(*tree),
        decreases *tree,
    {
        match tree {
            None => ValidationResult { red_red_count: 0, black_height_min: 1, black_height_max: 1 },
            Some(node) => {
                let left_result = Self::validate(&node.left, node.color);
                let right_result = Self::validate(&node.right, node.color);
                let (self_red_red_count, self_black_count): (usize, usize) = match node.color {
                    Color::Red => match parent_color {
                        Color::Red => (1, 0),
                        Color::Black => (0, 0),
                    },
                    Color::Black => (0, 1),
                };
                proof {
                    Self::lemma_counts_bounded(node.left, node.color);
                    Self::lemma_counts_bounded(node.right, node.color);
                    Self::lemma_counts_bounded(*tree, parent_color);
                }
                let low = if left_result.black_height_min <= right_result.black_height_min {
                    left_result.black_height_min
                } else {
                    right_result.black_height_min
                };
                let high = if left_result.black_height_max >= right_result.black_height_max {
                    left_result.black_height_max
                } else {
                    right_result.black_height_max
                };
                ValidationResult {
                    red_red_count: left_result.red_red_count + right_result.red_red_count
                        + self_red_red_count,
                    black_height_min: self_black_count + low,
                    black_height_max: self_black_count + high,
                }
            },
        }
    }
}

impl<K: Ord, V> Node<K, V> {
    /// The subtree on one side of a node.
    pub closed spec fn child_of(self, is_left: bool) -> Option<Box<Node<K, V>>> {
        if is_left {
            self.left
        } else {
            self.right
        }
    }

    /// The node with the subtree on one side replaced.
    pub closed spec fn with_child(self, is_left: bool, t: Option<Box<Node<K, V>>>) -> Node<K, V> {
        if is_left {
            Node { key: self.key, value: self.value, color: self.color, left: t, right: self.right }
        } else {
            Node { key: self.key, value: self.value, color: self.color, left: self.left, right: t }
        }
    }

    /// The node with another color.
    pub closed spec fn with_color(self, color: Color) -> Node<K, V> {
        Node { key: self.key, value: self.value, color, left: self.left, right: self.right }
    }

    /// The node with another pair.
    pub closed spec fn with_pair(self, key: K, value: V) -> Node<K, V> {
        Node { key, value, color: self.color, left: self.left, right: self.right }
    }

    /// The node with another value.
    pub closed spec fn with_value(self, value: V) -> Node<K, V> {
        Node { key: self.key, value, color: self.color, left: self.left, right: self.right }
    }

    /// The subtree that a rotation of `self` gives. To the right, the left child takes the
    /// place of `self`, hands its right subtree over as the new left subtree of `self`, and
    /// takes `self` as its right child; to the left, the mirror image. Colors stay with their
    /// nodes.
    pub closed spec fn rotated(self, is_right: bool) -> Node<K, V> {
        let up = self.child_of(is_right).unwrap();
        let down = self.with_child(is_right, up.child_of(!is_right));
        up.with_child(!is_right, Some(Box::new(down)))
    }

    /// Takes the subtree on one side out of the node.
    pub fn take_child(&mut self, is_left: bool) -> (t: Option<Box<Node<K, V>>>)
        ensures
            t == old(self).child_of(is_left),
            *final(self) == old(self).with_child(is_left, None),
    {
        if is_left {
            self.left.take()
        } else {
            self.right.take()
        }
    }

    /// Hangs a subtree on one side of the node, in place of what is there.
    pub fn put_child(&mut self, is_left: bool, t: Option<Box<Node<K, V>>>)
        ensures
            *final(self) == old(self).with_child(is_left, t),
    {
        if is_left {
            self.left = t;
        } else {
            self.right = t;
        }
    }

    /// A red node without children.
    pub fn new(key: K, value: V) -> (node: Box<Node<K, V>>)
        ensures
            Self::root_key(Some(node)) == key,
            Self::root_value(Some(node)) == value,
            Self::is_red(Some(node)),
            node.child_of(true) is None,
            node.child_of(false) is None,
    {
        Box::new(Node { key, value, color: Color::Red, left: None, right: None })
    }

    /// The key of the node.
    pub fn key(&self) -> (key: &K)
        ensures
            *key == Self::root_key(Some(Box::new(*self))),
    {
        &self.key
    }

    /// The value of the node.
    pub fn value(&self) -> (value: &V)
        ensures
            *value == Self::root_value(Some(Box::new(*self))),
    {
        &self.value
    }

    /// The node on one side of the node, if there is one.
    pub fn child(&self, is_left: bool) -> (child: Option<&Node<K, V>>)
        ensures
            match self.child_of(is_left) {
                None => child is None,
                Some(node) => child == Some(&*node),
            },
    {
        let link = if is_left {
            &self.left
        } else {
            &self.right
        };
        match link {
            None => None,
            Some(node) => Some(&**node),
        }
    }

    fn link_is_red(t: &Option<Box<Node<K, V>>>) -> (red: bool)
        ensures
            red == Self::is_red(*t),
    {
        match t {
            None => false,
            Some(n) => match n.color {
                Color::Red => true,
                Color::Black => false,
            },
        }
    }

    /// Rotates the subtree at `node`: to the right if `is_right`, else to the left. The child
    /// that moves up must be there.
    pub fn rotate(node: &mut Box<Node<K, V>>, is_right: bool)
        requires
            old(node).child_of(is_right) is Some,
        ensures
            **final(node) == old(node).rotated(is_right),
    {
        let mut up = node.take_child(is_right).unwrap();
        let inner = up.take_child(!is_right);
        node.put_child(is_right, inner);
        let down = Self::replace_child(node, up);
        node.put_child(!is_right, Some(down));
    }

    /// Puts `new_child` in the place where its owner holds `child`, and hands `child` back.
    /// The owner may be a node or the tree itself.
    fn replace_child(child: &mut Box<Node<K, V>>, new_child: Box<Node<K, V>>) -> (replaced: Box<
        Node<K, V>,
    >)
        ensures
            *final(child) == new_child,
            replaced == *old(child),
    {
        let mut new_child = new_child;
        std::mem::swap(child, &mut new_child);
        new_child
    }

    /// The pairs of a subtree, from those of its root and of the two subtrees below it.
    proof fn lemma_map_of_node(t: Option<Box<Node<K, V>>>)
        requires
            t is Some,
        ensures
            forall|x: K| #[trigger]
                Self::map_of(t).contains_key(x) <==> x == t.unwrap().key || Self::map_of(
                    t.unwrap().left,
                ).contains_key(x) || Self::map_of(t.unwrap().right).contains_key(x),
            Self::map_of(t)[t.unwrap().key] == t.unwrap().value,
            forall|x: K|
                x != t.unwrap().key && #[trigger] Self::map_of(t.unwrap().left).contains_key(x)
                    ==> Self::map_of(t)[x] == Self::map_of(t.unwrap().left)[x],
            forall|x: K|
                x != t.unwrap().key && !Self::map_of(t.unwrap().left).contains_key(x)
                    && #[trigger] Self::map_of(t.unwrap().right).contains_key(x) ==> Self::map_of(
                    t,
                )[x] == Self::map_of(t.unwrap().right)[x],
    {
    }

    /// A rotation keeps the pairs, their order and their number.
    proof fn lemma_rotated(self, is_right: bool)
        requires
            total_order::<K>(),
            self.child_of(is_right) is Some,
            Self::ordered(Some(Box::new(self))),
        ensures
            Self::map_of(Some(Box::new(self.rotated(is_right)))) == Self::map_of(
                Some(Box::new(self)),
            ),
            Self::ordered(Some(Box::new(self.rotated(is_right)))),
            Self::size(Some(Box::new(self.rotated(is_right)))) == Self::size(
                Some(Box::new(self)),
            ),
    {
        reveal_with_fuel(Node::map_of, 3);
        reveal_with_fuel(Node::ordered, 3);
        reveal_with_fuel(Node::size, 3);
        let up = self.child_of(is_right).unwrap();
        let inner = up.child_of(!is_right);
        let down = self.with_child(is_right, inner);
        let res = self.rotated(is_right);
        assert(Self::ordered(Some(up)));
        lemma_trichotomy(up.key, self.key);
        if is_right {
            assert(Self::map_of(self.left).contains_key(up.key));
            assert forall|x: K| #[trigger]
                Self::map_of(Some(Box::new(down))).contains_key(x) implies lt(up.key, x) by {
                assert(x == self.key || Self::map_of(up.right).contains_key(x) || Self::map_of(
                    self.right,
                ).contains_key(x));
                assert(Self::all_after(up.right, up.key));
                assert(Self::all_after(self.right, self.key));
                if Self::map_of(self.right).contains_key(x) {
                    lemma_transitive(up.key, self.key, x);
                }
            }
            assert forall|x: K| #[trigger] Self::map_of(inner).contains_key(x) implies lt(
                x,
                self.key,
            ) by {
                assert(Self::map_of(self.left).contains_key(x));
            }
        } else {
            assert(Self::map_of(self.right).contains_key(up.key));
            assert forall|x: K| #[trigger]
                Self::map_of(Some(Box::new(down))).contains_key(x) implies lt(x, up.key) by {
                assert(x == self.key || Self::map_of(up.left).contains_key(x) || Self::map_of(
                    self.left,
                ).contains_key(x));
                assert(Self::all_before(up.left, up.key));
                assert(Self::all_before(self.left, self.key));
                if Self::map_of(self.left).contains_key(x) {
                    lemma_transitive(x, self.key, up.key);
                }
            }
            assert forall|x: K| #[trigger] Self::map_of(inner).contains_key(x) implies lt(
                self.key,
                x,
            ) by {
                assert(Self::map_of(self.right).contains_key(x));
            }
        }
        assert(Self::ordered(Some(Box::new(down))));
        assert(Self::ordered(Some(Box::new(res))));
        let outer = up.child_of(is_right);
        let other = self.child_of(!is_right);
        assert(Self::all_before(up.left, up.key) && Self::all_after(up.right, up.key));
        assert(Self::all_before(self.left, self.key) && Self::all_after(self.right, self.key));
        assert forall|x: K| #[trigger] Self::map_of(outer).contains_key(x) implies x != self.key
            && x != up.key && !Self::map_of(inner).contains_key(x) && !Self::map_of(
            other,
        ).contains_key(x) by {
            lemma_trichotomy(x, self.key);
            lemma_trichotomy(x, up.key);
            if is_right {
                assert(Self::map_of(self.left).contains_key(x));
            } else {
                assert(Self::map_of(self.right).contains_key(x));
            }
        }
        assert forall|x: K| #[trigger] Self::map_of(inner).contains_key(x) implies x != self.key
            && x != up.key && !Self::map_of(other).contains_key(x) by {
            lemma_trichotomy(x, self.key);
            lemma_trichotomy(x, up.key);
            if is_right {
                assert(Self::map_of(self.left).contains_key(x));
            } else {
                assert(Self::map_of(self.right).contains_key(x));
            }
        }
        assert forall|x: K| #[trigger] Self::map_of(other).contains_key(x) implies x != self.key
            && x != up.key by {
            lemma_trichotomy(x, self.key);
            lemma_trichotomy(x, up.key);
            if is_right {
                lemma_transitive(up.key, self.key, x);
            } else {
                lemma_transitive(x, self.key, up.key);
            }
        }
        let m_res = Self::map_of(Some(Box::new(res)));
        let m_self = Self::map_of(Some(Box::new(self)));
        let m_down = Self::map_of(Some(Box::new(down)));
        let m_up = Self::map_of(Some(up));
        Self::lemma_map_of_node(Some(Box::new(res)));
        Self::lemma_map_of_node(Some(Box::new(self)));
        Self::lemma_map_of_node(Some(Box::new(down)));
        Self::lemma_map_of_node(Some(up));
        assert forall|x: K| m_res.contains_key(x) == m_self.contains_key(x) by {}
        assert forall|x: K| m_res.contains_key(x) implies m_res[x] == m_self[x] by {
            if x == self.key {
                assert(m_down[x] == self.value);
                assert(m_res[x] == self.value);
            } else if x == up.key {
                assert(m_up[x] == up.value);
                assert(m_self[x] == up.value);
            } else if Self::map_of(inner).contains_key(x) {
                assert(m_down[x] == Self::map_of(inner)[x]);
                assert(m_up[x] == Self::map_of(inner)[x]);
                assert(m_res[x] == Self::map_of(inner)[x]);
                assert(m_self[x] == Self::map_of(inner)[x]);
            } else if Self::map_of(outer).contains_key(x) {
                assert(m_up[x] == Self::map_of(outer)[x]);
                assert(m_res[x] == Self::map_of(outer)[x]);
                assert(m_self[x] == Self::map_of(outer)[x]);
            } else {
                assert(Self::map_of(other).contains_key(x));
                assert(m_down[x] == Self::map_of(other)[x]);
                assert(m_res[x] == Self::map_of(other)[x]);
                assert(m_self[x] == Self::map_of(other)[x]);
            }
        }
        assert(m_res =~= m_self);
    }
}

impl<K: Ord, V> Node<K, V> {
    /// No red node below the root of `t` has a red child, and a red root has at most one
    /// red child: what an insertion leaves for the level above to repair.
    pub closed spec fn red_ok_below_root(t: Option<Box<Node<K, V>>>) -> bool {
        match t {
            None => true,
            Some(n) => {
                &&& Self::red_ok(n.left)
                &&& Self::red_ok(n.right)
                &&& (n.color is Red ==> !(Self::is_red(n.left) && Self::is_red(n.right)))
            },
        }
    }

    /// Gives the node a color.
    pub fn set_color(&mut self, color: Color)
        ensures
            Self::color_of(Some(Box::new(*final(self)))) == color,
            Self::root_key(Some(Box::new(*final(self)))) == Self::root_key(
                Some(Box::new(*old(self))),
            ),
            Self::root_value(Some(Box::new(*final(self)))) == Self::root_value(
                Some(Box::new(*old(self))),
            ),
            final(self).child_of(true) == old(self).child_of(true),
            final(self).child_of(false) == old(self).child_of(false),
    {
        self.color = color;
    }

    /// Whether the node is red.
    pub fn color_is_red(&self) -> (red: bool)
        ensures
            red == Self::is_red(Some(Box::new(*self))),
    {
        match self.color {
            Color::Red => true,
            Color::Black => false,
        }
    }

    /// A node rebuilt over subtrees that hold the same pairs holds the same pairs, in order
    /// if it was in order.
    proof fn lemma_rebuilt(n: Node<K, V>, m: Node<K, V>)
        requires
            n.key == m.key,
            n.value == m.value,
            Self::map_of(n.left) == Self::map_of(m.left),
            Self::map_of(n.right) == Self::map_of(m.right),
            Self::size(n.left) == Self::size(m.left),
            Self::size(n.right) == Self::size(m.right),
            Self::ordered(n.left) ==> Self::ordered(m.left),
            Self::ordered(n.right) ==> Self::ordered(m.right),
        ensures
            Self::map_of(Some(Box::new(m))) == Self::map_of(Some(Box::new(n))),
            Self::size(Some(Box::new(m))) == Self::size(Some(Box::new(n))),
            Self::ordered(Some(Box::new(n))) ==> Self::ordered(Some(Box::new(m))),
    {
    }

    /// The case that `fix_on_add` meets on the side `parent_is_left` of the node.
    pub closed spec fn add_case_of(self, parent_is_left: bool) -> AddCase {
        let parent = self.child_of(parent_is_left);
        if !Self::is_red(parent) {
            AddCase::Settled
        } else if !Self::is_red(parent.unwrap().left) && !Self::is_red(parent.unwrap().right) {
            AddCase::Settled
        } else if Self::is_red(self.child_of(!parent_is_left)) {
            AddCase::UncleRed
        } else if Self::is_red(parent.unwrap().left) == parent_is_left {
            AddCase::Line
        } else {
            AddCase::Triangle
        }
    }

    /// What `fix_on_add` makes of the node: with a red uncle, the node turns red, the
    /// parent and the uncle black; on a line, the node turns red, the parent black, and the
    /// node is rotated away from the parent's side; in a triangle, the parent is first rotated
    /// away from its red child's side, and the rest is as on a line.
    pub closed spec fn fixed_on_add(self, parent_is_left: bool) -> Node<K, V> {
        let parent = self.child_of(parent_is_left).unwrap();
        let uncle = self.child_of(!parent_is_left).unwrap();
        match self.add_case_of(parent_is_left) {
            AddCase::Settled => self,
            AddCase::UncleRed => self.with_color(Color::Red).with_child(
                parent_is_left,
                Some(Box::new(parent.with_color(Color::Black))),
            ).with_child(!parent_is_left, Some(Box::new(uncle.with_color(Color::Black)))),
            AddCase::Line => self.with_color(Color::Red).with_child(
                parent_is_left,
                Some(Box::new(parent.with_color(Color::Black))),
            ).rotated(parent_is_left),
            AddCase::Triangle => self.with_color(Color::Red).with_child(
                parent_is_left,
                Some(Box::new(parent.rotated(!parent_is_left).with_color(Color::Black))),
            ).rotated(parent_is_left),
        }
    }

    /// Tells which case `fix_on_add` meets on the side `parent_is_left` of the node.
    pub fn add_case(&self, parent_is_left: bool) -> (case: AddCase)
        ensures
            case == self.add_case_of(parent_is_left),
    {
        let parent = match self.child(parent_is_left) {
            None => {
                return AddCase::Settled;
            },
            Some(parent) => parent,
        };
        if !parent.color_is_red() {
            return AddCase::Settled;
        }
        let self_is_left = if Self::link_is_red(&parent.left) {
            true
        } else if Self::link_is_red(&parent.right) {
            false
        } else {
            return AddCase::Settled;
        };
        let uncle_is_red = Self::link_is_red(
            if parent_is_left {
                &self.right
            } else {
                &self.left
            },
        );
        if uncle_is_red {
            AddCase::UncleRed
        } else if parent_is_left == self_is_left {
            AddCase::Line
        } else {
            AddCase::Triangle
        }
    }

    /// Repairs a red node with a red child below `node`, after an insertion on the side
    /// `parent_is_left` of `node`. With `node` as the grandparent: a red uncle is recolored
    /// black together with the parent, and `node` turns red; with a black uncle, a new node on
    /// the inner side of its parent is first rotated to the outer side, then `node` turns red,
    /// the parent black, and `node` is rotated away from the parent's side.
    pub fn fix_on_add(node: &mut Box<Node<K, V>>, parent_is_left: bool)
        requires
            total_order::<K>(),
            Self::ordered(Some(*old(node))),
            Self::balanced(Some(*old(node))),
            Self::red_ok_below_root(old(node).child_of(parent_is_left)),
            Self::red_ok(old(node).child_of(!parent_is_left)),
            Self::is_red(Some(*old(node))) ==> Self::red_ok(old(node).child_of(parent_is_left))
                && !Self::is_red(old(node).child_of(!parent_is_left)),
        ensures
            Self::map_of(Some(*final(node))) == Self::map_of(Some(*old(node))),
            Self::size(Some(*final(node))) == Self::size(Some(*old(node))),
            Self::ordered(Some(*final(node))),
            Self::balanced(Some(*final(node))),
            Self::black_height(Some(*final(node))) == Self::black_height(Some(*old(node))),
            Self::red_ok_below_root(Some(*final(node))),
            !Self::is_red(Some(*old(node))) ==> Self::red_ok(Some(*final(node))),
            Self::is_red(Some(*old(node))) ==> Self::is_red(Some(*final(node))),
            **final(node) == old(node).fixed_on_add(parent_is_left),
    {
        let ghost g0 = **node;
        let ghost s = parent_is_left;
        let case = node.add_case(parent_is_left);
        match case {
            AddCase::Settled => {
                assert(Self::red_ok(g0.child_of(s)));
            },
            AddCase::UncleRed => {
                let mut parent = node.take_child(parent_is_left).unwrap();
                let ghost parent0 = *parent;
                assert(Self::ordered(Some(parent)) && Self::balanced(Some(parent)));
                // A red parent with a red child: the grandparent is black.
                assert(!Self::red_ok(g0.child_of(s)));
                assert(g0.color is Black);
                let mut uncle = node.take_child(!parent_is_left).unwrap();
                let ghost u0 = *uncle;
                assert(Self::ordered(Some(uncle)) && Self::balanced(Some(uncle)) && Self::red_ok(
                    Some(uncle),
                ));
                uncle.color = Color::Black;
                parent.color = Color::Black;
                node.color = Color::Red;
                proof {
                    Self::lemma_rebuilt(u0, *uncle);
                    Self::lemma_rebuilt(parent0, *parent);
                    assert(Self::balanced(Some(uncle)) && Self::red_ok(Some(uncle)));
                    assert(Self::balanced(Some(parent)) && Self::red_ok(Some(parent)));
                    assert(Self::black_height(Some(uncle)) == Self::black_height(
                        Some(Box::new(u0)),
                    ) + 1);
                    assert(Self::black_height(Some(parent)) == Self::black_height(
                        Some(Box::new(parent0)),
                    ) + 1);
                }
                node.put_child(parent_is_left, Some(parent));
                node.put_child(!parent_is_left, Some(uncle));
                proof {
                    Self::lemma_rebuilt(g0, **node);
                }
            },
            AddCase::Line | AddCase::Triangle => {
                let is_triangle = match case {
                    AddCase::Triangle => true,
                    _ => false,
                };
                let mut parent = node.take_child(parent_is_left).unwrap();
                let ghost parent0 = *parent;
                let ghost uncle = g0.child_of(!s);
                assert(Self::ordered(Some(parent)) && Self::balanced(Some(parent)));
                assert(!Self::red_ok(g0.child_of(s)));
                assert(g0.color is Black);
                assert(Self::red_ok(uncle) && Self::balanced(uncle));
                if is_triangle {
                    let self_is_left = !parent_is_left;
                    let ghost x0 = *parent0.child_of(self_is_left).unwrap();
                    proof {
                        parent.lemma_rotated(self_is_left);
                        assert(Self::red_ok(Some(Box::new(x0))) && Self::balanced(
                            Some(Box::new(x0)),
                        ));
                    }
                    Self::rotate(&mut parent, self_is_left);
                    proof {
                        let low = *parent.child_of(s).unwrap();
                        assert(low == parent0.with_child(self_is_left, x0.child_of(s)));
                        assert(Self::balanced(Some(Box::new(low))));
                        assert(Self::red_ok_below_root(Some(Box::new(low))));
                        assert(Self::red_ok(low.left) && Self::red_ok(low.right));
                        assert(Self::black_height(Some(Box::new(low))) == Self::black_height(
                            Some(Box::new(parent0)),
                        ));
                        assert(Self::balanced(Some(parent)));
                        assert(Self::black_height(Some(parent)) == Self::black_height(
                            Some(Box::new(parent0)),
                        ));
                    }
                }
                let ghost parent1 = *parent;
                assert(Self::map_of(Some(parent)) == Self::map_of(Some(Box::new(parent0))));
                assert(Self::ordered(Some(parent)));
                node.color = Color::Red;
                parent.color = Color::Black;
                proof {
                    Self::lemma_rebuilt(parent1, *parent);
                }
                let ghost parent2 = *parent;
                node.put_child(parent_is_left, Some(parent));
                let ghost g1 = **node;
                proof {
                    Self::lemma_rebuilt(g0, g1);
                    g1.lemma_rotated(parent_is_left);
                }
                Self::rotate(node, parent_is_left);
                proof {
                    let low = *node.child_of(!s).unwrap();
                    assert(low == g1.with_child(s, parent2.child_of(!s)));
                    assert(Self::red_ok(low.left) && Self::red_ok(low.right));
                    assert(Self::balanced(low.left) && Self::balanced(low.right));
                    assert(Self::red_ok(Some(Box::new(low))));
                    assert(Self::balanced(Some(Box::new(low))));
                    assert(Self::red_ok(node.child_of(s)) && Self::balanced(node.child_of(s)));
                    assert(Self::balanced(Some(*node)));
                    assert(Self::red_ok(Some(*node)));
                }
            },
        }
    }
}

impl<K: Ord, V> Node<K, V> {
    /// A subtree in order holds each key once: as many pairs as nodes.
    proof fn lemma_size_is_len(t: Option<Box<Node<K, V>>>)
        requires
            total_order::<K>(),
            Self::ordered(t),
        ensures
            Self::map_of(t).dom().finite(),
            Self::map_of(t).dom().len() == Self::size(t),
        decreases t,
    {
        match t {
            None => {
                assert(Self::map_of(t).dom() =~= Set::<K>::empty());
            },
            Some(n) => {
                Self::lemma_size_is_len(n.left);
                Self::lemma_size_is_len(n.right);
                Self::lemma_map_of_node(t);
                let l = Self::map_of(n.left).dom();
                let r = Self::map_of(n.right).dom();
                assert forall|x: K| l.contains(x) implies !r.contains(x) && x != n.key by {
                    assert(Self::map_of(n.left).contains_key(x));
                    lemma_trichotomy(x, n.key);
                    if r.contains(x) {
                        assert(Self::map_of(n.right).contains_key(x));
                    }
                }
                assert forall|x: K| r.contains(x) implies x != n.key by {
                    assert(Self::map_of(n.right).contains_key(x));
                    lemma_trichotomy(x, n.key);
                }
                assert(l.disjoint(r));
                vstd::set_lib::lemma_set_disjoint_lens(l, r);
                assert(Self::map_of(t).dom() =~= (l + r).insert(n.key));
            },
        }
    }

    /// The pairs of a subtree in order, read from left to right, ascend and are the pairs
    /// of its map, one for each node.
    proof fn lemma_entries_of(t: Option<Box<Node<K, V>>>)
        requires
            total_order::<K>(),
            Self::ordered(t),
        ensures
            ascending(Self::entries_of(t)),
            lists(Self::entries_of(t), Self::map_of(t)),
            Self::entries_of(t).len() == Self::size(t),
        decreases t,
    {
        if let Some(n) = t {
            Self::lemma_entries_of(n.left);
            Self::lemma_entries_of(n.right);
            Self::lemma_map_of_node(t);
            let l = Self::entries_of(n.left);
            let r = Self::entries_of(n.right);
            let e = Self::entries_of(t);
            let m = Self::map_of(t);
            assert(e.len() == l.len() + 1 + r.len());
            assert forall|i: int| 0 <= i < e.len() implies (if i < l.len() {
                e[i] == l[i] && Self::map_of(n.left).contains_key(e[i].0) && lt(e[i].0, n.key)
            } else if i == l.len() {
                e[i] == (n.key, n.value)
            } else {
                e[i] == r[i - l.len() - 1] && Self::map_of(n.right).contains_key(e[i].0) && lt(
                    n.key,
                    e[i].0,
                )
            }) by {
                if i < l.len() {
                    assert(lookup(Self::map_of(n.left), l[i].0) == Some(l[i].1));
                } else if i > l.len() {
                    let j = i - l.len() - 1;
                    assert(lookup(Self::map_of(n.right), r[j].0) == Some(r[j].1));
                }
            }
            assert forall|i: int, j: int| 0 <= i < j < e.len() implies lt(
                #[trigger] e[i].0,
                #[trigger] e[j].0,
            ) by {
                if j < l.len() {
                    assert(lt(l[i].0, l[j].0));
                } else if i > l.len() {
                    assert(lt(r[i - l.len() - 1].0, r[j - l.len() - 1].0));
                } else if i < l.len() && j > l.len() {
                    lemma_transitive(e[i].0, n.key, e[j].0);
                }
            }
            assert forall|i: int| 0 <= i < e.len() implies lookup(m, (#[trigger] e[i]).0) == Some(
                e[i].1,
            ) by {
                lemma_trichotomy(e[i].0, n.key);
                if i < l.len() {
                    assert(lookup(Self::map_of(n.left), l[i].0) == Some(l[i].1));
                } else if i > l.len() {
                    let j = i - l.len() - 1;
                    assert(lookup(Self::map_of(n.right), r[j].0) == Some(r[j].1));
                    if Self::map_of(n.left).contains_key(e[i].0) {
                        lemma_transitive(e[i].0, n.key, e[i].0);
                        lemma_trichotomy(e[i].0, e[i].0);
                    }
                }
            }
            assert forall|k: K| #[trigger] m.contains_key(k) implies exists|i: int|
                0 <= i < e.len() && (#[trigger] e[i]).0 == k by {
                if k == n.key {
                    assert(e[l.len() as int].0 == k);
                } else if Self::map_of(n.left).contains_key(k) {
                    let i = choose|i: int| 0 <= i < l.len() && (#[trigger] l[i]).0 == k;
                    assert(e[i].0 == k);
                } else {
                    assert(Self::map_of(n.right).contains_key(k));
                    let i = choose|i: int| 0 <= i < r.len() && (#[trigger] r[i]).0 == k;
                    assert(e[i + l.len() + 1].0 == k);
                }
            }
        }
    }

    /// A node one of whose subtrees has other values but the outline that it had, and had
    /// no red node with a red child, has nothing to repair on that side.
    proof fn lemma_outline_settled(was: Self, now: Self, is_left: bool)
        requires
            Self::red_ok(was.child_of(is_left)),
            Self::outline(now.child_of(is_left)) == Self::outline(was.child_of(is_left)),
            now.child_of(!is_left) == was.child_of(!is_left),
            now.key == was.key,
            now.color == was.color,
        ensures
            now.add_case_of(is_left) is Settled,
            Self::outline(Some(Box::new(now))) == Self::outline(Some(Box::new(was))),
    {
        let a = was.child_of(is_left);
        let b = now.child_of(is_left);
        if let Some(n) = b {
            assert(a is Some);
            let m = a.unwrap();
            assert(Self::outline(n.left) == Self::outline(m.left));
            assert(Self::outline(n.right) == Self::outline(m.right));
            assert(n.color == m.color);
            Self::lemma_outline_color(n.left, m.left);
            Self::lemma_outline_color(n.right, m.right);
        }
    }

    /// Subtrees with the same outline have roots of the same color.
    proof fn lemma_outline_color(a: Option<Box<Node<K, V>>>, b: Option<Box<Node<K, V>>>)
        requires
            Self::outline(a) == Self::outline(b),
        ensures
            Self::is_red(a) == Self::is_red(b),
    {
    }

    /// What `add_rec` makes of a subtree: a missing subtree becomes a red node with the
    /// pair; a node with the key gets the value; any other node has the pair added on the
    /// side of the key, and then repairs that side.
    pub closed spec fn added(t: Option<Box<Node<K, V>>>, key: K, value: V) -> Option<
        Box<Node<K, V>>,
    >
        decreases t,
    {
        match t {
            None => Some(
                Box::new(Node { key, value, color: Color::Red, left: None, right: None }),
            ),
            Some(n) => if key == n.key {
                Some(Box::new(n.with_value(value)))
            } else {
                let is_left = lt(key, n.key);
                Some(
                    Box::new(
                        n.with_child(is_left, Self::added(n.child_of(is_left), key, value)).fixed_on_add(
                            is_left,
                        ),
                    ),
                )
            },
        }
    }

    /// Inserts a pair below `tree`, or replaces the value of a key that is there, and hands
    /// the replaced value back. A new node is red; on the way back up each level repairs what
    /// the level below left.
    pub fn add_rec(tree: &mut Option<Box<Node<K, V>>>, key: K, value: V) -> (replaced: Option<V>)
        requires
            total_order::<K>(),
            Self::ordered(*old(tree)),
            Self::balanced(*old(tree)),
            Self::red_ok(*old(tree)),
        ensures
            Self::map_of(*final(tree)) == Self::map_of(*old(tree)).insert(key, value),
            replaced == lookup(Self::map_of(*old(tree)), key),
            Self::size(*final(tree)) + count_of(Self::map_of(*old(tree)), key) == Self::size(
                *old(tree),
            ) + 1,
            Self::ordered(*final(tree)),
            Self::balanced(*final(tree)),
            Self::black_height(*final(tree)) == Self::black_height(*old(tree)),
            Self::red_ok_below_root(*final(tree)),
            !Self::is_red(*old(tree)) ==> Self::red_ok(*final(tree)),
            Self::is_red(*old(tree)) ==> Self::is_red(*final(tree)),
            Self::map_of(*old(tree)).contains_key(key) ==> Self::outline(*final(tree))
                == Self::outline(*old(tree)),
            *final(tree) == Self::added(*old(tree), key, value),
        decreases *old(tree),
    {
        let ghost t0 = *tree;
        match tree.take() {
            None => {
                *tree = Some(Box::new(Node { key, value, color: Color::Red, left: None, right: None }));
                proof {
                    Self::lemma_map_of_node(*tree);
                    assert(Self::map_of(*tree) =~= Self::map_of(t0).insert(key, value));
                }
                None
            },
            Some(mut node) => {
                let ghost n0 = *node;
                proof {
                    Self::lemma_map_of_node(t0);
                    lemma_trichotomy(key, n0.key);
                }
                let replaced = match relate(&key, &node.key) {
                    Relation::Less => {
                        let replaced = Self::add_rec(&mut node.left, key, value);
                        proof {
                            Self::lemma_map_of_node(Some(node));
                            assert(Self::all_before(node.left, node.key));
                            assert(!Self::map_of(n0.right).contains_key(key));
                            assert(Self::map_of(Some(node)) =~= Self::map_of(t0).insert(
                                key,
                                value,
                            ));
                            assert(Self::balanced(Some(node)));
                            if Self::map_of(t0).contains_key(key) {
                                Self::lemma_outline_settled(n0, *node, true);
                            }
                        }
                        Self::fix_on_add(&mut node, true);
                        replaced
                    },
                    Relation::Equal => {
                        let mut value = value;
                        std::mem::swap(&mut node.value, &mut value);
                        proof {
                            Self::lemma_map_of_node(Some(node));
                            assert(Self::map_of(Some(node)) =~= Self::map_of(t0).insert(
                                key,
                                n0.value,
                            ).insert(key, node.value));
                        }
                        Some(value)
                    },
                    Relation::Greater => {
                        let replaced = Self::add_rec(&mut node.right, key, value);
                        proof {
                            Self::lemma_map_of_node(Some(node));
                            assert(Self::all_after(node.right, node.key));
                            assert(!Self::map_of(n0.left).contains_key(key));
                            assert(Self::map_of(Some(node)) =~= Self::map_of(t0).insert(
                                key,
                                value,
                            ));
                            assert(Self::balanced(Some(node)));
                            if Self::map_of(t0).contains_key(key) {
                                Self::lemma_outline_settled(n0, *node, false);
                            }
                        }
                        Self::fix_on_add(&mut node, false);
                        replaced
                    },
                };
                *tree = Some(node);
                replaced
            },
        }
    }
}

impl<K: Ord, V> Node<K, V> {
    /// What a removal below `before` may leave as `after`: the coloring rules hold in it, it
    /// is one black node short on every path exactly if `deficit`, and then its root is
    /// black; a red root was red before.
    pub closed spec fn removal_colors(
        before: Option<Box<Node<K, V>>>,
        after: Option<Box<Node<K, V>>>,
        deficit: bool,
    ) -> bool {
        &&& Self::red_ok(after)
        &&& Self::balanced(after)
        &&& Self::black_height(after) + (if deficit {
            1nat
        } else {
            0nat
        }) == Self::black_height(before)
        &&& (deficit ==> !Self::is_red(after) && !Self::is_red(before))
        &&& (Self::is_red(after) ==> Self::is_red(before))
    }

    /// The key at the root of a subtree.
    pub closed spec fn root_key(t: Option<Box<Node<K, V>>>) -> K
        recommends
            t is Some,
    {
        t.unwrap().key
    }

    /// The value at the root of a subtree.
    pub closed spec fn root_value(t: Option<Box<Node<K, V>>>) -> V
        recommends
            t is Some,
    {
        t.unwrap().value
    }

    /// The case that `fix_on_remove` meets where the side `is_left` of the node is short.
    pub closed spec fn remove_case_of(self, is_left: bool) -> RemoveCase
        recommends
            self.child_of(!is_left) is Some,
    {
        let sibling = self.child_of(!is_left).unwrap();
        if sibling.color is Red {
            RemoveCase::SiblingRed
        } else if Self::is_red(sibling.child_of(!is_left)) {
            RemoveCase::FarRed
        } else if Self::is_red(sibling.child_of(is_left)) {
            RemoveCase::NearRed
        } else {
            RemoveCase::BothBlack
        }
    }

    /// What `fix_on_remove` makes of the node, and whether the node stays short.
    pub closed spec fn fixed_on_remove(self, is_left: bool) -> (Node<K, V>, bool) {
        self.fixed_on_remove_in(is_left, 1)
    }

    /// What `fix_on_remove` makes of the node where it may go on below the node `again`
    /// times. With a red sibling, the sibling turns black, the node red, the node is rotated
    /// toward the short side, and the repair goes on below; with black nephews, the sibling
    /// turns red and the node black, and the node stays short if it was black; with a red near
    /// nephew only, the sibling turns red, that nephew black, and the sibling is rotated away
    /// from the short side before the step for a red far nephew.
    pub closed spec fn fixed_on_remove_in(self, is_left: bool, again: nat) -> (Node<K, V>, bool)
        decreases again,
    {
        let sibling = self.child_of(!is_left).unwrap();
        match self.remove_case_of(is_left) {
            RemoveCase::SiblingRed => {
                if again == 0 {
                    (self, false)
                } else {
                    let turned = self.with_color(Color::Red).with_child(
                        !is_left,
                        Some(Box::new(sibling.with_color(Color::Black))),
                    ).rotated(!is_left);
                    let low = turned.child_of(is_left).unwrap();
                    (
                        turned.with_child(
                            is_left,
                            Some(Box::new(low.fixed_on_remove_in(is_left, (again - 1) as nat).0)),
                        ),
                        false,
                    )
                }
            },
            RemoveCase::BothBlack => (
                self.with_child(
                    !is_left,
                    Some(Box::new(sibling.with_color(Color::Red))),
                ).with_color(Color::Black),
                self.color is Black,
            ),
            RemoveCase::FarRed => (self.fixed_far_red(is_left, *sibling), false),
            RemoveCase::NearRed => {
                let near = sibling.child_of(is_left).unwrap();
                let turned = sibling.with_color(Color::Red).with_child(
                    is_left,
                    Some(Box::new(near.with_color(Color::Black))),
                ).rotated(is_left);
                (self.fixed_far_red(is_left, turned), false)
            },
        }
    }

    /// The step of `fix_on_remove` for a black sibling with a red far nephew: the sibling
    /// takes the color of the node, the node and the far nephew turn black, and the node is
    /// rotated toward the short side.
    pub closed spec fn fixed_far_red(self, is_left: bool, sibling: Node<K, V>) -> Node<K, V> {
        let far = sibling.child_of(!is_left).unwrap();
        self.with_color(Color::Black).with_child(
            !is_left,
            Some(
                Box::new(
                    sibling.with_child(
                        !is_left,
                        Some(Box::new(far.with_color(Color::Black))),
                    ).with_color(self.color),
                ),
            ),
        ).rotated(!is_left)
    }

    /// Tells which case `fix_on_remove` meets where the side `is_left` of the node is short.
    pub fn remove_case(&self, is_left: bool) -> (case: RemoveCase)
        requires
            self.child_of(!is_left) is Some,
        ensures
            case == self.remove_case_of(is_left),
    {
        let sibling = self.child(!is_left).unwrap();
        if sibling.color_is_red() {
            return RemoveCase::SiblingRed;
        }
        let far_is_red = Self::link_is_red(
            if is_left {
                &sibling.right
            } else {
                &sibling.left
            },
        );
        if far_is_red {
            return RemoveCase::FarRed;
        }
        let near_is_red = Self::link_is_red(
            if is_left {
                &sibling.left
            } else {
                &sibling.right
            },
        );
        if near_is_red {
            RemoveCase::NearRed
        } else {
            RemoveCase::BothBlack
        }
    }

    /// Restores the black height below `node` after a removal has left the subtree on the
    /// side `is_left` one black node short, with a black root. With the sibling on the other
    /// side: a red sibling turns black, `node` red, `node` is rotated toward the short side,
    /// and the repair goes on one level down; a black sibling with a red far child takes the
    /// color of `node`, `node` and the far child turn black, and `node` is rotated toward the
    /// short side; a black sibling with only a red near child turns red, the near child black,
    /// the sibling is rotated away from the short side, and the far case follows; a black
    /// sibling with two black children turns red, and a red `node` turns black, while under a
    /// black `node` the whole subtree stays short. Returns whether it stays short.
    #[verifier::rlimit(40)]
    pub fn fix_on_remove(node: &mut Box<Node<K, V>>, is_left: bool) -> (deficit: bool)
        requires
            total_order::<K>(),
            Self::ordered(Some(*old(node))),
            Self::red_ok(old(node).child_of(is_left)),
            Self::balanced(old(node).child_of(is_left)),
            !Self::is_red(old(node).child_of(is_left)),
            Self::red_ok(old(node).child_of(!is_left)),
            Self::balanced(old(node).child_of(!is_left)),
            Self::black_height(old(node).child_of(is_left)) + 1 == Self::black_height(
                old(node).child_of(!is_left),
            ),
            Self::is_red(Some(*old(node))) ==> !Self::is_red(old(node).child_of(!is_left)),
        ensures
            Self::map_of(Some(*final(node))) == Self::map_of(Some(*old(node))),
            Self::size(Some(*final(node))) == Self::size(Some(*old(node))),
            Self::ordered(Some(*final(node))),
            Self::red_ok(Some(*final(node))),
            Self::balanced(Some(*final(node))),
            Self::black_height(Some(*final(node))) + (if deficit {
                1nat
            } else {
                0nat
            }) == Self::black_height(old(node).child_of(!is_left)) + Self::black_count(
                Self::color_of(Some(*old(node))),
            ),
            deficit ==> !Self::is_red(Some(*final(node))) && !Self::is_red(Some(*old(node))),
            Self::is_red(Some(*final(node))) ==> Self::is_red(Some(*old(node))),
            (**final(node), deficit) == old(node).fixed_on_remove(is_left),
        decreases
                (if Self::is_red(old(node).child_of(!is_left)) {
                    1nat
                } else {
                    0nat
                }),
    {
        let ghost g0 = **node;
        let ghost c = g0.child_of(is_left);
        proof {
            Self::lemma_counts_bounded(c, Color::Black);
        }
        assert(g0.child_of(!is_left) is Some);
        let case = node.remove_case(is_left);
        let mut brother = node.take_child(!is_left).unwrap();
        let ghost b0 = *brother;
        assert(Self::ordered(Some(brother)));
        match case {
            RemoveCase::SiblingRed => {
                brother.color = Color::Black;
                node.color = Color::Red;
                let ghost b1 = *brother;
                node.put_child(!is_left, Some(brother));
                let ghost g1 = **node;
                proof {
                    Self::lemma_rebuilt(b0, b1);
                    Self::lemma_rebuilt(g0, g1);
                    g1.lemma_rotated(!is_left);
                }
                Self::rotate(node, !is_left);
                let ghost r = **node;
                let mut low = node.take_child(is_left).unwrap();
                let ghost low0 = *low;
                proof {
                    assert(low0 == g1.with_child(!is_left, b0.child_of(is_left)));
                    assert(Self::ordered(Some(Box::new(r))));
                    assert(Self::ordered(Some(low)));
                    assert(low0.child_of(is_left) == c);
                }
                let below = Self::fix_on_remove(&mut low, is_left);
                assert(!below);
                assert(low0.fixed_on_remove_in(is_left, 0) == low0.fixed_on_remove_in(is_left, 1));
                node.put_child(is_left, Some(low));
                proof {
                    Self::lemma_rebuilt(r, **node);
                    assert(Self::balanced(Some(*node)));
                    assert(Self::red_ok(Some(*node)));
                }
                false
            },
            RemoveCase::BothBlack => {
                assert(Self::black_height(b0.left) == Self::black_height(c));
                assert(Self::black_height(b0.right) == Self::black_height(c));
                brother.color = Color::Red;
                let ghost b1 = *brother;
                node.put_child(!is_left, Some(brother));
                proof {
                    Self::lemma_rebuilt(b0, b1);
                    Self::lemma_rebuilt(g0, **node);
                    assert(Self::red_ok(Some(Box::new(b1))));
                    assert(Self::balanced(Some(Box::new(b1))));
                    assert(Self::black_height(Some(Box::new(b1))) == Self::black_height(c));
                    assert(Self::balanced(Some(*node)));
                }
                if node.color_is_red() {
                    let ghost g1 = **node;
                    node.color = Color::Black;
                    proof {
                        Self::lemma_rebuilt(g1, **node);
                        assert(Self::balanced(Some(*node)));
                        assert(Self::red_ok(Some(*node)));
                    }
                    false
                } else {
                    assert(Self::red_ok(Some(*node)));
                    true
                }
            },
            RemoveCase::NearRed | RemoveCase::FarRed => {
                assert(Self::black_height(b0.left) == Self::black_height(c));
                assert(Self::black_height(b0.right) == Self::black_height(c));
                let near_is_red = match case {
                    RemoveCase::NearRed => true,
                    _ => false,
                };
                if near_is_red {
                    let mut near = brother.take_child(is_left).unwrap();
                    let ghost near0 = *near;
                    assert(Self::red_ok(Some(near)) && Self::balanced(Some(near)));
                    assert(Self::ordered(Some(near)));
                    brother.color = Color::Red;
                    near.color = Color::Black;
                    let ghost near1 = *near;
                    brother.put_child(is_left, Some(near));
                    let ghost b1 = *brother;
                    proof {
                        Self::lemma_rebuilt(near0, near1);
                        Self::lemma_rebuilt(b0, b1);
                        b1.lemma_rotated(is_left);
                    }
                    Self::rotate(&mut brother, is_left);
                    proof {
                        let lowb = *brother.child_of(!is_left).unwrap();
                        assert(lowb == b1.with_child(is_left, near0.child_of(!is_left)));
                        assert(Self::red_ok(lowb.left) && Self::red_ok(lowb.right));
                        assert(Self::balanced(lowb.left) && Self::balanced(lowb.right));
                        assert(Self::black_height(near0.left) == Self::black_height(c));
                        assert(Self::black_height(near0.right) == Self::black_height(c));
                        assert(Self::red_ok(Some(Box::new(lowb))));
                        assert(Self::balanced(Some(Box::new(lowb))));
                        assert(Self::black_height(Some(Box::new(lowb))) == Self::black_height(c));
                        assert(Self::red_ok(brother.child_of(is_left)));
                        assert(Self::balanced(brother.child_of(is_left)));
                        assert(Self::red_ok(Some(brother)));
                        assert(Self::balanced(Some(brother)));
                        assert(Self::black_height(Some(brother)) == Self::black_height(c) + 1);
                    }
                }
                // A black sibling whose far child is red.

                let ghost b2 = *brother;
                assert(Self::map_of(Some(brother)) == Self::map_of(Some(Box::new(b0))));
                assert(Self::size(Some(brother)) == Self::size(Some(Box::new(b0))));
                assert(Self::ordered(Some(brother)));
                assert(Self::red_ok(Some(brother)) && Self::balanced(Some(brother)));
                assert(Self::black_height(Some(brother)) == Self::black_height(c) + 1);
                assert(b2.color is Black);
                assert(Self::is_red(b2.child_of(!is_left)));
                let mut far = brother.take_child(!is_left).unwrap();
                let ghost far0 = *far;
                assert(Self::red_ok(Some(far)) && Self::balanced(Some(far)));
                assert(Self::ordered(Some(far)));
                far.color = Color::Black;
                let ghost far1 = *far;
                brother.put_child(!is_left, Some(far));
                brother.color = node.color;
                node.color = Color::Black;
                let ghost b3 = *brother;
                node.put_child(!is_left, Some(brother));
                let ghost g1 = **node;
                proof {
                    Self::lemma_rebuilt(far0, far1);
                    Self::lemma_rebuilt(b2, b3);
                    Self::lemma_rebuilt(g0, g1);
                    g1.lemma_rotated(!is_left);
                    assert(Self::black_height(b2.left) == Self::black_height(c));
                    assert(Self::black_height(b2.right) == Self::black_height(c));
                    assert(Self::black_height(Some(Box::new(far0))) == Self::black_height(c));
                    assert(Self::black_height(Some(Box::new(far1))) == Self::black_height(c) + 1);
                    assert(Self::red_ok(Some(Box::new(far1))) && Self::balanced(
                        Some(Box::new(far1)),
                    ));
                }
                Self::rotate(node, !is_left);
                proof {
                    let low = *node.child_of(is_left).unwrap();
                    assert(low == g1.with_child(!is_left, b2.child_of(is_left)));
                    assert(Self::red_ok(low.left) && Self::red_ok(low.right));
                    assert(Self::balanced(low.left) && Self::balanced(low.right));
                    assert(Self::red_ok(Some(Box::new(low))));
                    assert(Self::balanced(Some(Box::new(low))));
                    assert(Self::black_height(Some(Box::new(low))) == Self::black_height(c) + 1);
                    assert(node.child_of(!is_left) == Some(Box::new(far1)));
                    assert(Self::balanced(Some(*node)));
                    assert(Self::red_ok(Some(*node)));
                }
                false
            },
        }
    }
}

impl<K: Ord, V> Node<K, V> {
    /// `k` is the greatest key of `t`.
    pub closed spec fn is_greatest(t: Option<Box<Node<K, V>>>, k: K) -> bool {
        &&& Self::map_of(t).contains_key(k)
        &&& forall|x: K| #[trigger] Self::map_of(t).contains_key(x) ==> x == k || lt(x, k)
    }

    /// `k` is the least key of `t`.
    pub closed spec fn is_least(t: Option<Box<Node<K, V>>>, k: K) -> bool {
        &&& Self::map_of(t).contains_key(k)
        &&& forall|x: K| #[trigger] Self::map_of(t).contains_key(x) ==> x == k || lt(k, x)
    }

    /// A subtree that has lost a black node on every path is repaired at its root; another
    /// is left as it is.
    pub closed spec fn refilled(self, is_left: bool, deficit: bool) -> (Option<Box<Node<K, V>>>, bool) {
        if deficit {
            (Some(Box::new(self.fixed_on_remove(is_left).0)), self.fixed_on_remove(is_left).1)
        } else {
            (Some(Box::new(self)), false)
        }
    }

    /// What `remove_right_most` or, with `is_left`, `remove_left_most` makes of a subtree
    /// and of the pair that it is handed: the subtree without the node at its end on that
    /// side, the pair of that node, and whether the subtree is a black node short.
    pub closed spec fn end_removed(t: Option<Box<Node<K, V>>>, is_left: bool, key: K, value: V) -> (
        Option<Box<Node<K, V>>>,
        K,
        V,
        bool,
    )
        decreases Self::size(t), 1nat,
    {
        match t {
            None => (None, key, value, false),
            Some(n) => if n.child_of(is_left) is Some {
                let below = Self::end_removed(n.child_of(is_left), is_left, key, value);
                let now = n.with_child(is_left, below.0).refilled(is_left, below.3);
                (now.0, below.1, below.2, now.1)
            } else {
                let gone = Self::node_removed(Some(Box::new(n.with_pair(key, value))));
                (gone.0, n.key, n.value, gone.1)
            },
        }
    }

    /// What `remove_node` makes of a subtree: a root with a left subtree takes over the
    /// pair of the greatest key to its left, whose node is removed in turn; a root with
    /// only a right subtree does the same with the least key to its right; a root without
    /// children is cut off, which leaves the subtree a black node short if the root was black.
    pub closed spec fn node_removed(t: Option<Box<Node<K, V>>>) -> (Option<Box<Node<K, V>>>, bool)
        decreases Self::size(t), 0nat,
    {
        match t {
            None => (None, false),
            Some(n) => if n.left is Some {
                let below = Self::end_removed(n.left, false, n.key, n.value);
                n.with_pair(below.1, below.2).with_child(true, below.0).refilled(true, below.3)
            } else if n.right is Some {
                let below = Self::end_removed(n.right, true, n.key, n.value);
                n.with_pair(below.1, below.2).with_child(false, below.0).refilled(false, below.3)
            } else {
                (None, n.color is Black)
            },
        }
    }

    /// What `remove_rec` makes of a subtree: the node with the key is removed, and every
    /// node above it repairs the side that it stood on, if that side is a black node short.
    pub closed spec fn removed(t: Option<Box<Node<K, V>>>, key: K) -> (Option<Box<Node<K, V>>>, bool)
        decreases t,
    {
        match t {
            None => (None, false),
            Some(n) => if key == n.key {
                Self::node_removed(t)
            } else {
                let is_left = lt(key, n.key);
                let below = Self::removed(n.child_of(is_left), key);
                n.with_child(is_left, below.0).refilled(is_left, below.1)
            },
        }
    }

    /// Exchanges the pair of `node` with the pair (`key`, `value`).
    fn swap_key_and_value(node: &mut Box<Node<K, V>>, key: &mut K, value: &mut V)
        ensures
            final(node).key == *old(key),
            final(node).value == *old(value),
            *final(key) == old(node).key,
            *final(value) == old(node).value,
            final(node).color == old(node).color,
            final(node).left == old(node).left,
            final(node).right == old(node).right,
    {
        std::mem::swap(&mut node.key, key);
        std::mem::swap(&mut node.value, value);
    }

    /// Removes the node with the greatest key below `tree`, after that node has exchanged
    /// its pair with (`key`, `value`), a pair whose key sorts after every key of `tree`.
    /// Returns the value that came in and whether `tree` is left one black node short.
    pub fn remove_right_most(tree: &mut Option<Box<Node<K, V>>>, key: &mut K, value: &mut V) -> (r:
        (V, bool))
        requires
            total_order::<K>(),
            *old(tree) is Some,
            Self::ordered(*old(tree)),
            Self::red_ok(*old(tree)),
            Self::balanced(*old(tree)),
            Self::all_before(*old(tree), *old(key)),
        ensures
            r.0 == *old(value),
            Self::is_greatest(*old(tree), *final(key)),
            *final(value) == Self::map_of(*old(tree))[*final(key)],
            Self::map_of(*final(tree)) == Self::map_of(*old(tree)).remove(*final(key)),
            Self::size(*final(tree)) + 1 == Self::size(*old(tree)),
            Self::ordered(*final(tree)),
            Self::removal_colors(*old(tree), *final(tree), r.1),
            (*final(tree), *final(key), *final(value), r.1) == Self::end_removed(
                *old(tree),
                false,
                *old(key),
                *old(value),
            ),
        decreases Self::size(*old(tree)), 1nat,
    {
        let ghost t0 = *tree;
        let ghost k0 = *key;
        let mut node = tree.take().unwrap();
        let ghost n0 = *node;
        proof {
            Self::lemma_map_of_node(t0);
        }
        if node.right.is_some() {
            assert forall|x: K| #[trigger] Self::map_of(n0.right).contains_key(x) implies lt(
                x,
                k0,
            ) by {
                assert(Self::map_of(t0).contains_key(x));
            }
            let r = Self::remove_right_most(&mut node.right, key, value);
            let ghost n1 = *node;
            proof {
                Self::lemma_map_of_node(Some(node));
                lemma_trichotomy(*key, n0.key);
                assert(Self::map_of(n0.right).contains_key(*key));
                assert forall|x: K| #[trigger] Self::map_of(t0).contains_key(x) implies x == *key
                    || lt(x, *key) by {
                    if x == n0.key {
                    } else if Self::map_of(n0.left).contains_key(x) {
                        lemma_transitive(x, n0.key, *key);
                    } else {
                        assert(Self::map_of(n0.right).contains_key(x));
                    }
                }
                assert(!Self::map_of(n0.left).contains_key(*key)) by {
                    if Self::map_of(n0.left).contains_key(*key) {
                        lemma_trichotomy(*key, n0.key);
                    }
                }
                assert(Self::map_of(Some(node)) =~= Self::map_of(t0).remove(*key));
                assert(Self::all_after(n1.right, n1.key));
                assert(Self::ordered(Some(node)));
            }
            let deficit = if r.1 {
                Self::fix_on_remove(&mut node, false)
            } else {
                assert(Self::red_ok(Some(node)));
                assert(Self::balanced(Some(node)));
                false
            };
            *tree = Some(node);
            (r.0, deficit)
        } else {
            Self::swap_key_and_value(&mut node, key, value);
            *tree = Some(node);
            proof {
                Self::lemma_map_of_node(*tree);
                assert(Self::map_of(n0.right) =~= Map::<K, V>::empty());
                assert(Self::all_before(n0.left, k0)) by {
                    assert forall|x: K| #[trigger]
                        Self::map_of(n0.left).contains_key(x) implies lt(x, k0) by {
                        assert(Self::map_of(t0).contains_key(x));
                    }
                }
                assert(Self::ordered(*tree));
                assert(Self::red_ok(*tree));
                assert(Self::balanced(*tree));
                assert(Self::map_of(t0).contains_key(n0.key));
                assert(!Self::map_of(n0.left).contains_key(n0.key)) by {
                    lemma_trichotomy(n0.key, n0.key);
                }
                assert(!Self::map_of(n0.left).contains_key(k0)) by {
                    lemma_trichotomy(k0, k0);
                }
                assert(Self::map_of(*tree).remove(k0) =~= Self::map_of(t0).remove(n0.key));
                assert(Self::black_height(*tree) == Self::black_height(t0));
                assert(Self::is_red(*tree) == Self::is_red(t0));
            }
            Self::remove_node(tree)
        }
    }

    /// Removes the node with the least key below `tree`, after that node has exchanged its
    /// pair with (`key`, `value`), a pair whose key sorts before every key of `tree`. Returns
    /// the value that came in and whether `tree` is left one black node short.
    pub fn remove_left_most(tree: &mut Option<Box<Node<K, V>>>, key: &mut K, value: &mut V) -> (r:
        (V, bool))
        requires
            total_order::<K>(),
            *old(tree) is Some,
            Self::ordered(*old(tree)),
            Self::red_ok(*old(tree)),
            Self::balanced(*old(tree)),
            Self::all_after(*old(tree), *old(key)),
        ensures
            r.0 == *old(value),
            Self::is_least(*old(tree), *final(key)),
            *final(value) == Self::map_of(*old(tree))[*final(key)],
            Self::map_of(*final(tree)) == Self::map_of(*old(tree)).remove(*final(key)),
            Self::size(*final(tree)) + 1 == Self::size(*old(tree)),
            Self::ordered(*final(tree)),
            Self::removal_colors(*old(tree), *final(tree), r.1),
            (*final(tree), *final(key), *final(value), r.1) == Self::end_removed(
                *old(tree),
                true,
                *old(key),
                *old(value),
            ),
        decreases Self::size(*old(tree)), 1nat,
    {
        let ghost t0 = *tree;
        let ghost k0 = *key;
        let mut node = tree.take().unwrap();
        let ghost n0 = *node;
        proof {
            Self::lemma_map_of_node(t0);
        }
        if node.left.is_some() {
            assert forall|x: K| #[trigger] Self::map_of(n0.left).contains_key(x) implies lt(
                k0,
                x,
            ) by {
                assert(Self::map_of(t0).contains_key(x));
            }
            let r = Self::remove_left_most(&mut node.left, key, value);
            let ghost n1 = *node;
            proof {
                Self::lemma_map_of_node(Some(node));
                lemma_trichotomy(*key, n0.key);
                assert(Self::map_of(n0.left).contains_key(*key));
                assert forall|x: K| #[trigger] Self::map_of(t0).contains_key(x) implies x == *key
                    || lt(*key, x) by {
                    if x == n0.key {
                    } else if Self::map_of(n0.right).contains_key(x) {
                        lemma_transitive(*key, n0.key, x);
                    } else {
                        assert(Self::map_of(n0.left).contains_key(x));
                    }
                }
                assert(!Self::map_of(n0.right).contains_key(*key)) by {
                    if Self::map_of(n0.right).contains_key(*key) {
                        lemma_trichotomy(*key, n0.key);
                    }
                }
                assert(Self::map_of(Some(node)) =~= Self::map_of(t0).remove(*key));
                assert(Self::all_before(n1.left, n1.key));
                assert(Self::ordered(Some(node)));
            }
            let deficit = if r.1 {
                Self::fix_on_remove(&mut node, true)
            } else {
                assert(Self::red_ok(Some(node)));
                assert(Self::balanced(Some(node)));
                false
            };
            *tree = Some(node);
            (r.0, deficit)
        } else {
            Self::swap_key_and_value(&mut node, key, value);
            *tree = Some(node);
            proof {
                Self::lemma_map_of_node(*tree);
                assert(Self::map_of(n0.left) =~= Map::<K, V>::empty());
                assert(Self::all_after(n0.right, k0)) by {
                    assert forall|x: K| #[trigger]
                        Self::map_of(n0.right).contains_key(x) implies lt(k0, x) by {
                        assert(Self::map_of(t0).contains_key(x));
                    }
                }
                assert(Self::ordered(*tree));
                assert(Self::red_ok(*tree));
                assert(Self::balanced(*tree));
                assert(Self::map_of(t0).contains_key(n0.key));
                assert(!Self::map_of(n0.right).contains_key(n0.key)) by {
                    lemma_trichotomy(n0.key, n0.key);
                }
                assert(!Self::map_of(n0.right).contains_key(k0)) by {
                    lemma_trichotomy(k0, k0);
                }
                assert(Self::map_of(*tree).remove(k0) =~= Self::map_of(t0).remove(n0.key));
                assert(Self::black_height(*tree) == Self::black_height(t0));
                assert(Self::is_red(*tree) == Self::is_red(t0));
            }
            Self::remove_node(tree)
        }
    }

    /// Removes the node at the root of `tree` and returns its value. A node with a left
    /// subtree first takes over the pair of its predecessor, the greatest key to its left,
    /// and the removal goes on where that pair stood; a node with only a right subtree does
    /// the same with its successor; a node without children is cut off. Also returns whether
    /// `tree` is left one black node short.
    pub fn remove_node(tree: &mut Option<Box<Node<K, V>>>) -> (r: (V, bool))
        requires
            total_order::<K>(),
            *old(tree) is Some,
            Self::ordered(*old(tree)),
            Self::red_ok(*old(tree)),
            Self::balanced(*old(tree)),
        ensures
            r.0 == Self::root_value(*old(tree)),
            Self::map_of(*final(tree)) == Self::map_of(*old(tree)).remove(
                Self::root_key(*old(tree)),
            ),
            Self::size(*final(tree)) + 1 == Self::size(*old(tree)),
            Self::ordered(*final(tree)),
            Self::removal_colors(*old(tree), *final(tree), r.1),
            (*final(tree), r.1) == Self::node_removed(*old(tree)),
        decreases Self::size(*old(tree)), 0nat,
    {
        let ghost t0 = *tree;
        let mut node = tree.take().unwrap();
        let ghost n0 = *node;
        proof {
            Self::lemma_map_of_node(t0);
            lemma_trichotomy(n0.key, n0.key);
        }
        if node.left.is_some() {
            let r = Self::remove_right_most(&mut node.left, &mut node.key, &mut node.value);
            proof {
                let pk = node.key;
                Self::lemma_map_of_node(Some(node));
                assert(Self::map_of(n0.left).contains_key(pk));
                lemma_trichotomy(pk, n0.key);
                assert forall|x: K| #[trigger] Self::map_of(node.left).contains_key(x) implies lt(
                    x,
                    pk,
                ) by {
                    assert(Self::map_of(n0.left).contains_key(x));
                }
                assert forall|x: K| #[trigger] Self::map_of(node.right).contains_key(x) implies lt(
                    pk,
                    x,
                ) by {
                    lemma_transitive(pk, n0.key, x);
                }
                assert(!Self::map_of(n0.right).contains_key(pk)) by {
                    if Self::map_of(n0.right).contains_key(pk) {
                        lemma_trichotomy(pk, n0.key);
                    }
                }
                assert(Self::ordered(Some(node)));
                assert(Self::map_of(Some(node)) =~= Self::map_of(t0).remove(n0.key));
            }
            let deficit = if r.1 {
                Self::fix_on_remove(&mut node, true)
            } else {
                assert(Self::red_ok(Some(node)));
                assert(Self::balanced(Some(node)));
                false
            };
            *tree = Some(node);
            (r.0, deficit)
        } else if node.right.is_some() {
            let r = Self::remove_left_most(&mut node.right, &mut node.key, &mut node.value);
            proof {
                let sk = node.key;
                Self::lemma_map_of_node(Some(node));
                assert(Self::map_of(n0.right).contains_key(sk));
                lemma_trichotomy(sk, n0.key);
                assert forall|x: K| #[trigger]
                    Self::map_of(node.right).contains_key(x) implies lt(sk, x) by {
                    assert(Self::map_of(n0.right).contains_key(x));
                }
                assert(Self::map_of(n0.left) =~= Map::<K, V>::empty());
                assert(Self::ordered(Some(node)));
                assert(Self::map_of(Some(node)) =~= Self::map_of(t0).remove(n0.key));
            }
            let deficit = if r.1 {
                Self::fix_on_remove(&mut node, false)
            } else {
                assert(Self::red_ok(Some(node)));
                assert(Self::balanced(Some(node)));
                false
            };
            *tree = Some(node);
            (r.0, deficit)
        } else {
            let deficit = !node.color_is_red();
            proof {
                assert(Self::map_of(n0.left) =~= Map::<K, V>::empty());
                assert(Self::map_of(n0.right) =~= Map::<K, V>::empty());
                assert(Self::map_of(*tree) =~= Self::map_of(t0).remove(n0.key));
            }
            let node = *node;
            (node.value, deficit)
        }
    }

    /// Removes `key` from below `tree` and returns its value, if it was there, and whether
    /// `tree` is left one black node short.
    pub fn remove_rec(tree: &mut Option<Box<Node<K, V>>>, key: &K) -> (r: (Option<V>, bool))
        requires
            total_order::<K>(),
            Self::ordered(*old(tree)),
            Self::red_ok(*old(tree)),
            Self::balanced(*old(tree)),
        ensures
            r.0 == lookup(Self::map_of(*old(tree)), *key),
            Self::map_of(*final(tree)) == Self::map_of(*old(tree)).remove(*key),
            Self::size(*final(tree)) + count_of(Self::map_of(*old(tree)), *key) == Self::size(
                *old(tree),
            ),
            Self::ordered(*final(tree)),
            Self::removal_colors(*old(tree), *final(tree), r.1),
            !Self::map_of(*old(tree)).contains_key(*key) ==> *final(tree) == *old(tree),
            (*final(tree), r.1) == Self::removed(*old(tree), *key),
        decreases *old(tree),
    {
        let ghost t0 = *tree;
        match tree.take() {
            None => {
                assert(Self::map_of(*tree) =~= Self::map_of(t0).remove(*key));
                (None, false)
            },
            Some(mut node) => {
                let ghost n0 = *node;
                proof {
                    Self::lemma_map_of_node(t0);
                    lemma_trichotomy(*key, n0.key);
                }
                match relate(key, &node.key) {
                    Relation::Less => {
                        let r = Self::remove_rec(&mut node.left, key);
                        proof {
                            Self::lemma_map_of_node(Some(node));
                            assert(!Self::map_of(n0.right).contains_key(*key));
                            assert(Self::all_before(node.left, node.key));
                            assert(Self::ordered(Some(node)));
                            assert(Self::map_of(Some(node)) =~= Self::map_of(t0).remove(*key));
                        }
                        let deficit = if r.1 {
                            Self::fix_on_remove(&mut node, true)
                        } else {
                            assert(Self::red_ok(Some(node)));
                            assert(Self::balanced(Some(node)));
                            false
                        };
                        *tree = Some(node);
                        (r.0, deficit)
                    },
                    Relation::Equal => {
                        *tree = Some(node);
                        let r = Self::remove_node(tree);
                        (Some(r.0), r.1)
                    },
                    Relation::Greater => {
                        let r = Self::remove_rec(&mut node.right, key);
                        proof {
                            Self::lemma_map_of_node(Some(node));
                            assert(!Self::map_of(n0.left).contains_key(*key));
                            assert(Self::all_after(node.right, node.key));
                            assert(Self::ordered(Some(node)));
                            assert(Self::map_of(Some(node)) =~= Self::map_of(t0).remove(*key));
                        }
                        let deficit = if r.1 {
                            Self::fix_on_remove(&mut node, false)
                        } else {
                            assert(Self::red_ok(Some(node)));
                            assert(Self::balanced(Some(node)));
                            false
                        };
                        *tree = Some(node);
                        (r.0, deficit)
                    },
                }
            },
        }
    }
}

impl<K: Ord, V> View for RedBlackTree<K, V> {
    type V = Map<K, V>;

    /// The map from each key in the tree to its value.
    closed spec fn view(&self) -> Map<K, V> {
        Node::map_of(self.root)
    }
}

impl<K: Ord, V> Default for RedBlackTree<K, V> {
    fn default() -> (tree: Self)
        ensures
            tree@ == Map::<K, V>::empty(),
            tree.well_formed(),
            tree.red_black(),
    {
        RedBlackTree { root: None, length: 0 }
    }
}

impl<K: Ord, V> RedBlackTree<K, V> {
    /// The keys are in search-tree order and `length` counts the nodes.
    pub closed spec fn well_formed(&self) -> bool {
        &&& Node::ordered(self.root)
        &&& self.length == Node::size(self.root)
    }

    /// The coloring rules: no red node has a red child, every path from a node down to a
    /// missing subtree passes the same number of black nodes, and the root is black.
    pub closed spec fn red_black(&self) -> bool {
        &&& Node::red_ok(self.root)
        &&& Node::balanced(self.root)
        &&& !Node::is_red(self.root)
    }

    /// The pairs of the tree in ascending order of their keys.
    pub closed spec fn entries(&self) -> Seq<(K, V)> {
        Node::entries_of(self.root)
    }

    /// The nodes of the tree in their places, with their keys and colors.
    pub closed spec fn outline(&self) -> Outline<K> {
        Node::outline(self.root)
    }

    /// The tree that `remove` makes of this one: the node with the key is removed below
    /// the root, and every node above it repairs what the removal has left.
    pub closed spec fn after_remove(&self, key: K) -> Self {
        RedBlackTree {
            root: Node::removed(self.root, key).0,
            length: if Node::map_of(self.root).contains_key(key) {
                (self.length - 1) as usize
            } else {
                self.length
            },
        }
    }

    /// The tree that `add` makes of this one: the pair is added below the root, on the way
    /// back up each node repairs what the node below it has left, and the root is black in
    /// the end.
    pub closed spec fn after_add(&self, key: K, value: V) -> Self {
        let root = Node::added(self.root, key, value).unwrap();
        RedBlackTree {
            root: Some(Box::new(root.with_color(Color::Black))),
            length: if Node::map_of(self.root).contains_key(key) {
                self.length
            } else {
                (self.length + 1) as usize
            },
        }
    }

    /// The number of keys in the tree.
    pub fn length(&self) -> (n: usize)
        requires
            total_order::<K>(),
            self.well_formed(),
        ensures
            n == self@.len(),
            self@.dom().finite(),
    {
        proof {
            Node::lemma_size_is_len(self.root);
        }
        self.length
    }

    /// Checks the coloring rules over the whole tree.
    pub fn is_valid(&self) -> (valid: bool)
        requires
            total_order::<K>(),
            self.well_formed(),
            self@.len() < usize::MAX,
        ensures
            valid == self.red_black(),
    {
        proof {
            Node::lemma_size_is_len(self.root);
            Node::lemma_counts_meaning(self.root, Color::Red);
        }
        Node::validate(&self.root, Color::Red).is_valid()
    }

    /// Maps `key` to `value` and returns the value that `key` had before, if any.
    pub fn add(&mut self, key: K, value: V) -> (replaced: Option<V>)
        requires
            total_order::<K>(),
            old(self).well_formed(),
            old(self).red_black(),
            old(self)@.len() < usize::MAX,
        ensures
            final(self).well_formed(),
            final(self).red_black(),
            final(self)@ == old(self)@.insert(key, value),
            replaced == lookup(old(self)@, key),
            final(self)@.len() + count_of(old(self)@, key) == old(self)@.len() + 1,
            old(self)@.contains_key(key) ==> final(self).outline() == old(self).outline(),
            *final(self) == old(self).after_add(key, value),
    {
        proof {
            Node::lemma_size_is_len(self.root);
        }
        let replaced = Node::add_rec(&mut self.root, key, value);
        proof {
            Node::lemma_size_is_len(self.root);
        }
        if replaced.is_none() {
            self.length += 1;
        }
        match self.root.take() {
            None => {},
            Some(mut root) => {
                let ghost r0 = *root;
                root.color = Color::Black;
                proof {
                    Node::lemma_rebuilt(r0, *root);
                    assert(Node::balanced(Some(root)));
                    assert(Node::red_ok(Some(root)));
                }
                self.root = Some(root);
            },
        }
        replaced
    }

    /// Removes `key` and returns the value that it had, if any.
    pub fn remove(&mut self, key: &K) -> (removed: Option<V>)
        requires
            total_order::<K>(),
            old(self).well_formed(),
            old(self).red_black(),
        ensures
            final(self).well_formed(),
            final(self).red_black(),
            final(self)@ == old(self)@.remove(*key),
            removed == lookup(old(self)@, *key),
            final(self)@.len() + count_of(old(self)@, *key) == old(self)@.len(),
            !old(self)@.contains_key(*key) ==> final(self).outline() == old(self).outline(),
            *final(self) == old(self).after_remove(*key),
    {
        proof {
            Node::lemma_size_is_len(self.root);
        }
        let r = Node::remove_rec(&mut self.root, key);
        proof {
            Node::lemma_size_is_len(self.root);
        }
        if r.0.is_some() {
            self.length -= 1;
        }
        r.0
    }

    /// The pairs that a walk yields ascend strictly by key, are as many as `length` says,
    /// and are the pairs of the map.
    pub proof fn lemma_entries(&self)
        requires
            total_order::<K>(),
            self.well_formed(),
        ensures
            ascending(self.entries()),
            lists(self.entries(), self@),
            self@.dom().finite(),
            self.entries().len() == self@.len(),
    {
        Node::lemma_entries_of(self.root);
        Node::lemma_size_is_len(self.root);
    }

    /// The number of nodes on the longest path from the root down to a missing subtree.
    pub closed spec fn height(&self) -> nat {
        Node::height(self.root)
    }

    /// The height is logarithmic: a tree with a path of `2 * n` or `2 * n - 1` nodes holds at
    /// least `2^n - 1` keys.
    pub proof fn lemma_logarithmic_height(&self)
        requires
            total_order::<K>(),
            self.well_formed(),
            self.red_black(),
        ensures
            two_to((self.height() + 1) / 2) <= self@.len() + 1,
    {
        Node::lemma_size_is_len(self.root);
        Node::lemma_height(self.root);
        lemma_two_to_grows((self.height() + 1) / 2, (Node::black_height(self.root) - 1) as nat);
    }

    /// A walk over the pairs of the tree in ascending order of their keys.
    pub fn iter(&self) -> (it: Iter<'_, K, V>)
        requires
            total_order::<K>(),
            self.well_formed(),
        ensures
            it@ == self.entries(),
            ascending(it@),
            lists(it@, self@),
            it@.len() == self@.len(),
    {
        proof {
            self.lemma_entries();
        }
        let mut it = Iter { path: Vec::new() };
        match &self.root {
            None => {},
            Some(root) => {
                it.path.push((&**root, false));
                it.left_most();
                assert(Node::entries_of(self.root) + Iter::<K, V>::pending(seq![(&**root, false)])
                    =~= Node::entries_of(self.root));
                assert(it@ == self.entries());
            },
        }
        it
    }

    /// The value that `key` maps to, if any.
    pub fn find(&self, key: &K) -> (found: Option<&V>)
        requires
            total_order::<K>(),
            self.well_formed(),
        ensures
            found.is_some() == self@.contains_key(*key),
            found matches Some(value) ==> *value == self@[*key],
    {
        let mut cur = &self.root;
        loop
            invariant
                total_order::<K>(),
                Node::ordered(*cur),
                Node::map_of(*cur).contains_key(*key) == self@.contains_key(*key),
                self@.contains_key(*key) ==> Node::map_of(*cur)[*key] == self@[*key],
            decreases Node::size(*cur),
        {
            match cur {
                None => {
                    return None;
                },
                Some(node) => {
                    proof {
                        Node::lemma_map_of_node(*cur);
                        lemma_trichotomy(*key, node.key);
                    }
                    match relate(key, &node.key) {
                        Relation::Less => {
                            assert(!Node::map_of(node.right).contains_key(*key));
                            cur = &node.left;
                        },
                        Relation::Equal => {
                            return Some(&node.value);
                        },
                        Relation::Greater => {
                            assert(!Node::map_of(node.left).contains_key(*key));
                            cur = &node.right;
                        },
                    }
                },
            }
        }
    }
}

/// A walk over the pairs of a tree in ascending order of their keys. It holds the chain of
/// nodes from the root down to the node that comes next, each with the side on which it hangs
/// below the one before: the way back up for the step to a successor.
pub struct Iter<'n, K: Ord, V> {
    path: Vec<(&'n Node<K, V>, bool)>,
}

impl<'n, K: Ord, V> Iter<'n, K, V> {
    /// The pairs that come after the subtree of the last node of `path`: for every node of
    /// the chain that hangs on the left of the one above it, that one's pair and right subtree.
    pub closed spec fn pending(path: Seq<(&Node<K, V>, bool)>) -> Seq<(K, V)>
        decreases path.len(),
    {
        if path.len() <= 1 {
            Seq::empty()
        } else {
            let above = path.drop_last();
            if path.last().1 {
                let parent = above.last().0;
                seq![(parent.key, parent.value)] + Node::entries_of(parent.right) + Self::pending(
                    above,
                )
            } else {
                Self::pending(above)
            }
        }
    }

    /// The pairs still to come, from the last node of `path` on.
    pub closed spec fn remaining(path: Seq<(&Node<K, V>, bool)>) -> Seq<(K, V)> {
        if path.len() == 0 {
            Seq::empty()
        } else {
            let node = path.last().0;
            seq![(node.key, node.value)] + Node::entries_of(node.right) + Self::pending(path)
        }
    }

    /// Whether the node that comes next hangs on the left of its parent.
    fn is_left(&self) -> (left: bool)
        requires
            self.path@.len() > 0,
        ensures
            left == self.path@.last().1,
    {
        self.path[self.path.len() - 1].1
    }

    /// Moves from the last node of the chain down to the left as far as it goes.
    fn left_most(&mut self)
        requires
            old(self).path@.len() > 0,
        ensures
            final(self).path@.len() > 0,
            Self::remaining(final(self).path@) == Node::entries_of(
                Some(Box::new(*old(self).path@.last().0)),
            ) + Self::pending(old(self).path@),
    {
        let ghost start = self.path@;
        let mut node: &'n Node<K, V> = self.path[self.path.len() - 1].0;
        loop
            invariant
                self.path@.len() > 0,
                start == old(self).path@,
                start.len() > 0,
                self.path@.last().0 == node,
                Node::entries_of(node.left) + Self::remaining(self.path@) == Node::entries_of(
                    Some(Box::new(*start.last().0)),
                ) + Self::pending(start),
            decreases Node::size(Some(Box::new(*node))),
        {
            match &node.left {
                None => {
                    assert(Node::<K, V>::entries_of(node.left) + Self::remaining(self.path@)
                        =~= Self::remaining(self.path@));
                    return ;
                },
                Some(left) => {
                    let ghost before = self.path@;
                    self.path.push((&**left, true));
                    proof {
                        assert(self.path@.drop_last() =~= before);
                        assert(Node::entries_of(left.left) + Self::remaining(self.path@)
                            =~= Node::entries_of(node.left) + Self::remaining(before));
                    }
                    node = &**left;
                },
            }
        }
    }

    /// Moves from the last node of the chain up to the first node that it lies to the left
    /// of, or off the chain if there is none.
    fn first_right_parent(&mut self)
        requires
            old(self).path@.len() > 0,
        ensures
            Self::remaining(final(self).path@) == Self::pending(old(self).path@),
    {
        loop
            invariant
                self.path@.len() > 0,
                Self::pending(self.path@) == Self::pending(old(self).path@),
            decreases self.path@.len(),
        {
            let ghost before = self.path@;
            let left = self.is_left();
            self.path.pop();
            assert(self.path@ =~= before.drop_last());
            if self.path.len() == 0 {
                return ;
            }
            if left {
                return ;
            }
        }
    }

    /// The next pair in ascending order of the keys, if any is left.
    pub fn next(&mut self) -> (item: Option<(&'n K, &'n V)>)
        ensures
            old(self)@.len() == 0 ==> item is None && final(self)@ == old(self)@,
            old(self)@.len() > 0 ==> item == Some((&old(self)@[0].0, &old(self)@[0].1))
                && final(self)@ == old(self)@.drop_first(),
    {
        if self.path.len() == 0 {
            return None;
        }
        let ghost before = self.path@;
        let node: &'n Node<K, V> = self.path[self.path.len() - 1].0;
        match &node.right {
            None => {
                self.first_right_parent();
                assert(Self::remaining(self.path@) =~= Self::remaining(before).drop_first());
            },
            Some(right) => {
                self.path.push((&**right, false));
                assert(self.path@.drop_last() =~= before);
                self.left_most();
                assert(Self::remaining(self.path@) =~= Self::remaining(before).drop_first());
            },
        }
        Some((&node.key, &node.value))
    }
}

impl<'n, K: Ord, V> View for Iter<'n, K, V> {
    type V = Seq<(K, V)>;

    /// The pairs still to come, in the order in which they come.
    closed spec fn view(&self) -> Seq<(K, V)> {
        Self::remaining(self.path@)
    }
}

} // verus!
