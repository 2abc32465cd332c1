use collections::red_black::{AddCase, Color, Node, RedBlackTree, RemoveCase};
use rand::seq::SliceRandom;

fn keys_of(tree: &RedBlackTree<i32, i32>) -> Vec<i32> {
    let mut keys = Vec::new();
    let mut walk = tree.iter();
    while let Some((key, value)) = walk.next() {
        assert_eq!(key, value);
        keys.push(*key);
    }
    keys
}

#[test]
fn add() {
    let mut tree = RedBlackTree::default();
    const NUM: i32 = 100;
    let mut elements: Vec<i32> = (0..NUM).collect();
    elements.shuffle(&mut rand::thread_rng());
    for element in elements.iter() {
        let element = *element;
        assert_eq!(tree.add(element, element), None);
        assert!(tree.is_valid());
    }
    assert_eq!(tree.add(99, 99), Some(99));
    assert_eq!(keys_of(&tree), (0..NUM).collect::<Vec<i32>>());
}

#[test]
fn empty_tree() {
    let mut tree: RedBlackTree<i32, i32> = RedBlackTree::default();
    assert_eq!(tree.length(), 0);
    assert!(tree.is_valid());
    assert_eq!(tree.find(&1), None);
    assert_eq!(tree.remove(&1), None);
    assert_eq!(keys_of(&tree), Vec::<i32>::new());
    assert!(tree.iter().next().is_none());
}

#[test]
fn replace_keeps_the_node() {
    let mut tree = RedBlackTree::default();
    assert_eq!(tree.add(7, "first"), None);
    assert_eq!(tree.length(), 1);
    assert_eq!(tree.add(7, "second"), Some("first"));
    assert_eq!(tree.length(), 1);
    assert_eq!(tree.find(&7), Some(&"second"));
    assert!(tree.is_valid());
}

#[test]
fn find_returns_latest_value() {
    let mut tree = RedBlackTree::default();
    for key in 0..50 {
        assert_eq!(tree.add(key, key * 10), None);
    }
    for key in (0..50).step_by(3) {
        assert_eq!(tree.add(key, key + 1), Some(key * 10));
    }
    for key in (0..50).step_by(5) {
        let expected = if key % 3 == 0 { key + 1 } else { key * 10 };
        assert_eq!(tree.remove(&key), Some(expected));
    }
    for key in 0..50 {
        let expected = if key % 5 == 0 {
            None
        } else if key % 3 == 0 {
            Some(key + 1)
        } else {
            Some(key * 10)
        };
        assert_eq!(tree.find(&key).copied(), expected);
    }
    assert_eq!(tree.find(&50), None);
    assert_eq!(tree.find(&-1), None);
}

#[test]
fn length_counts_distinct_keys() {
    let mut tree = RedBlackTree::default();
    let keys = [5, 3, 8, 3, 5, 1, 9, 8];
    for key in keys.iter() {
        tree.add(*key, ());
    }
    assert_eq!(tree.length(), 5);
    assert_eq!(tree.remove(&3), Some(()));
    assert_eq!(tree.remove(&3), None);
    assert_eq!(tree.remove(&4), None);
    assert_eq!(tree.length(), 4);
}

#[test]
fn ascending_input_stays_valid() {
    let mut tree = RedBlackTree::default();
    for key in 0..200 {
        assert_eq!(tree.add(key, key), None);
        assert!(tree.is_valid());
        assert_eq!(tree.length(), (key + 1) as usize);
    }
    assert_eq!(keys_of(&tree), (0..200).collect::<Vec<i32>>());
}

#[test]
fn descending_input_stays_valid() {
    let mut tree = RedBlackTree::default();
    for key in (0..200).rev() {
        assert_eq!(tree.add(key, key), None);
        assert!(tree.is_valid());
    }
    assert_eq!(keys_of(&tree), (0..200).collect::<Vec<i32>>());
}

#[test]
fn round_trip() {
    const NUM: i32 = 300;
    let mut rng = rand::thread_rng();
    let mut elements: Vec<i32> = (0..NUM).collect();
    elements.shuffle(&mut rng);
    let mut tree = RedBlackTree::default();
    for element in elements.iter() {
        assert_eq!(tree.add(*element, *element * 2), None);
    }
    assert_eq!(tree.length(), NUM as usize);
    elements.shuffle(&mut rng);
    let mut left = NUM as usize;
    for element in elements.iter() {
        assert_eq!(tree.remove(element), Some(*element * 2));
        assert!(tree.is_valid());
        left -= 1;
        assert_eq!(tree.length(), left);
        assert_eq!(tree.find(element), None);
    }
    assert_eq!(tree.length(), 0);
    for element in elements.iter() {
        assert_eq!(tree.find(element), None);
    }
    assert!(tree.iter().next().is_none());
}

#[test]
fn removal_in_every_order_of_a_small_tree() {
    let orders: [[i32; 4]; 24] = [
        [0, 1, 2, 3], [0, 1, 3, 2], [0, 2, 1, 3], [0, 2, 3, 1], [0, 3, 1, 2], [0, 3, 2, 1],
        [1, 0, 2, 3], [1, 0, 3, 2], [1, 2, 0, 3], [1, 2, 3, 0], [1, 3, 0, 2], [1, 3, 2, 0],
        [2, 0, 1, 3], [2, 0, 3, 1], [2, 1, 0, 3], [2, 1, 3, 0], [2, 3, 0, 1], [2, 3, 1, 0],
        [3, 0, 1, 2], [3, 0, 2, 1], [3, 1, 0, 2], [3, 1, 2, 0], [3, 2, 0, 1], [3, 2, 1, 0],
    ];
    for inserts in orders.iter() {
        for removes in orders.iter() {
            let mut tree = RedBlackTree::default();
            for key in inserts.iter() {
                assert_eq!(tree.add(*key, *key + 100), None);
                assert!(tree.is_valid());
            }
            let mut present: Vec<i32> = vec![0, 1, 2, 3];
            for key in removes.iter() {
                assert_eq!(tree.remove(key), Some(*key + 100));
                assert!(tree.is_valid());
                present.retain(|k| k != key);
                assert_eq!(keys_of_plus(&tree), present);
            }
            assert_eq!(tree.length(), 0);
        }
    }
}

fn keys_of_plus(tree: &RedBlackTree<i32, i32>) -> Vec<i32> {
    let mut keys = Vec::new();
    let mut walk = tree.iter();
    while let Some((key, value)) = walk.next() {
        assert_eq!(*key + 100, *value);
        keys.push(*key);
    }
    keys
}

#[test]
fn removal_of_long_runs_terminates_and_stays_valid() {
    let mut tree = RedBlackTree::default();
    for key in 0..1000 {
        tree.add(key, key);
    }
    for key in 0..500 {
        assert_eq!(tree.remove(&key), Some(key));
        assert!(tree.is_valid());
    }
    for key in (750..1000).rev() {
        assert_eq!(tree.remove(&key), Some(key));
        assert!(tree.is_valid());
    }
    assert_eq!(keys_of(&tree), (500..750).collect::<Vec<i32>>());
    for key in 500..750 {
        if key % 2 == 0 {
            assert_eq!(tree.remove(&key), Some(key));
            assert!(tree.is_valid());
        }
    }
    assert_eq!(tree.length(), 125);
}

#[test]
fn removing_the_only_key_empties_the_tree() {
    let mut tree = RedBlackTree::default();
    assert_eq!(tree.add(1, 'a'), None);
    assert_eq!(tree.remove(&1), Some('a'));
    assert_eq!(tree.length(), 0);
    assert!(tree.is_valid());
    assert_eq!(tree.add(1, 'b'), None);
    assert_eq!(tree.find(&1), Some(&'b'));
}

/// The node that `path` leads to from `root`: `true` is a step to the left.
fn node_at<'a>(root: &'a Node<i32, ()>, path: &[bool]) -> Option<&'a Node<i32, ()>> {
    let mut node = root;
    for step in path {
        node = node.child(*step)?;
    }
    Some(node)
}

/// The node above the node that `path` leads to, if it has one.
fn parent_of<'a>(root: &'a Node<i32, ()>, path: &[bool]) -> Option<&'a Node<i32, ()>> {
    node_at(root, path)?;
    let (_, above) = path.split_last()?;
    node_at(root, above)
}

fn key_at(root: &Node<i32, ()>, path: &[bool]) -> i32 {
    *node_at(root, path).unwrap().key()
}

#[test]
fn rotate_left() {
    let mut root = Node::new(0, ());
    root.put_child(false, Some(Node::new(1, ())));
    Node::rotate(&mut root, false);
    //   1
    // 0
    assert_eq!(key_at(&root, &[]), 1);
    assert_eq!(key_at(&root, &[true]), 0);
    assert!(root.child(false).is_none());
    assert_eq!(*parent_of(&root, &[true]).unwrap().key(), 1);
    assert!(parent_of(&root, &[]).is_none());

    root.put_child(false, Some(Node::new(2, ())));
    Node::rotate(&mut root, false);
    //    2
    //  1
    // 0
    assert_eq!(key_at(&root, &[]), 2);
    assert_eq!(key_at(&root, &[true]), 1);
    assert!(root.child(false).is_none());
    assert_eq!(key_at(&root, &[true, true]), 0);
    assert_eq!(*parent_of(&root, &[true, true]).unwrap().key(), 1);
    assert_eq!(*parent_of(&root, &[true]).unwrap().key(), 2);

    let mut left = root.take_child(true).unwrap();
    let mut three = Node::new(3, ());
    three.put_child(false, Some(Node::new(4, ())));
    left.put_child(false, Some(three));
    Node::rotate(&mut left, false);
    root.put_child(true, Some(left));
    //    2
    //   3
    //  1 4
    // 0
    assert_eq!(key_at(&root, &[]), 2);
    assert_eq!(key_at(&root, &[true]), 3);
    assert_eq!(key_at(&root, &[true, true]), 1);
    assert_eq!(key_at(&root, &[true, false]), 4);
    assert_eq!(key_at(&root, &[true, true, true]), 0);

    assert_eq!(*parent_of(&root, &[true, true, true]).unwrap().key(), 1);
    assert_eq!(*parent_of(&root, &[true, true]).unwrap().key(), 3);
    assert_eq!(*parent_of(&root, &[true, false]).unwrap().key(), 3);
    assert_eq!(*parent_of(&root, &[true]).unwrap().key(), 2);

    //    2             3
    //   3            1   2
    //  1 4     ->   0   4
    // 0
    Node::rotate(&mut root, true);
    assert_eq!(key_at(&root, &[]), 3);
    assert!(parent_of(&root, &[]).is_none());
    assert_eq!(key_at(&root, &[true]), 1);
    assert_eq!(key_at(&root, &[true, true]), 0);
    assert_eq!(key_at(&root, &[false]), 2);
    assert_eq!(key_at(&root, &[false, true]), 4);
    assert!(node_at(&root, &[false, false]).is_none());
}

#[test]
fn rotation_keeps_colors_with_their_nodes() {
    let mut tree = RedBlackTree::default();
    for key in [2, 1, 3] {
        tree.add(key, ());
    }
    let mut root = Node::new(10, ());
    assert!(root.color_is_red());
    root.put_child(true, Some(Node::new(5, ())));
    Node::rotate(&mut root, true);
    assert!(root.color_is_red());
    assert!(root.child(false).unwrap().color_is_red());
    assert_eq!(*root.key(), 5);
    assert_eq!(*root.value(), ());
}

fn leaf(key: i32, color: Color) -> Box<Node<i32, ()>> {
    let mut node = Node::new(key, ());
    node.set_color(color);
    node
}

fn join(
    key: i32,
    color: Color,
    left: Option<Box<Node<i32, ()>>>,
    right: Option<Box<Node<i32, ()>>>,
) -> Box<Node<i32, ()>> {
    let mut node = leaf(key, color);
    node.put_child(true, left);
    node.put_child(false, right);
    node
}

/// The keys and colors of a subtree, in order, with brackets around each subtree.
fn picture(node: Option<&Node<i32, ()>>) -> String {
    match node {
        None => "-".to_string(),
        Some(node) => format!(
            "({} {}{} {})",
            picture(node.child(true)),
            node.key(),
            if node.color_is_red() { "r" } else { "b" },
            picture(node.child(false))
        ),
    }
}

#[test]
fn fix_on_add_with_a_red_uncle_recolors() {
    for parent_is_left in [true, false] {
        for child_is_left in [true, false] {
            let (parent_key, uncle_key) = if parent_is_left { (5, 15) } else { (15, 5) };
            let child_key = if child_is_left { parent_key - 2 } else { parent_key + 2 };
            let mut parent = leaf(parent_key, Color::Red);
            parent.put_child(child_is_left, Some(leaf(child_key, Color::Red)));
            let uncle = leaf(uncle_key, Color::Red);
            let mut top = leaf(10, Color::Black);
            top.put_child(parent_is_left, Some(parent));
            top.put_child(!parent_is_left, Some(uncle));
            assert!(matches!(top.add_case(parent_is_left), AddCase::UncleRed));
            assert!(matches!(top.add_case(!parent_is_left), AddCase::Settled));
            Node::fix_on_add(&mut top, parent_is_left);
            assert_eq!(*top.key(), 10);
            assert!(top.color_is_red());
            assert!(!top.child(true).unwrap().color_is_red());
            assert!(!top.child(false).unwrap().color_is_red());
            let parent = top.child(parent_is_left).unwrap();
            assert_eq!(*parent.key(), parent_key);
            assert_eq!(*parent.child(child_is_left).unwrap().key(), child_key);
            assert!(parent.child(child_is_left).unwrap().color_is_red());
        }
    }
}

#[test]
fn fix_on_add_line_rotates_the_grandparent() {
    let top = || join(10, Color::Black, Some(join(5, Color::Red, Some(leaf(3, Color::Red)), None)), None);
    assert!(matches!(top().add_case(true), AddCase::Line));
    let mut node = top();
    Node::fix_on_add(&mut node, true);
    assert_eq!(picture(Some(&node)), "((- 3r -) 5b (- 10r -))");

    let mut node = join(10, Color::Black, None, Some(join(15, Color::Red, None, Some(leaf(17, Color::Red)))));
    assert!(matches!(node.add_case(false), AddCase::Line));
    Node::fix_on_add(&mut node, false);
    assert_eq!(picture(Some(&node)), "((- 10r -) 15b (- 17r -))");
}

#[test]
fn fix_on_add_triangle_rotates_the_parent_first() {
    let mut node = join(10, Color::Black, Some(join(5, Color::Red, None, Some(leaf(7, Color::Red)))), None);
    assert!(matches!(node.add_case(true), AddCase::Triangle));
    Node::fix_on_add(&mut node, true);
    assert_eq!(picture(Some(&node)), "((- 5r -) 7b (- 10r -))");

    let mut node = join(
        10,
        Color::Black,
        Some(leaf(2, Color::Black)),
        Some(join(
            15,
            Color::Red,
            Some(join(12, Color::Red, Some(leaf(11, Color::Black)), Some(leaf(13, Color::Black)))),
            Some(leaf(17, Color::Black)),
        )),
    );
    assert!(matches!(node.add_case(false), AddCase::Triangle));
    Node::fix_on_add(&mut node, false);
    assert_eq!(
        picture(Some(&node)),
        "(((- 2b -) 10r (- 11b -)) 12b ((- 13b -) 15r (- 17b -)))"
    );
}

#[test]
fn fix_on_add_leaves_settled_nodes_alone() {
    let mut node = join(10, Color::Black, Some(join(5, Color::Black, Some(leaf(3, Color::Red)), None)), None);
    assert!(matches!(node.add_case(true), AddCase::Settled));
    assert!(matches!(node.add_case(false), AddCase::Settled));
    Node::fix_on_add(&mut node, true);
    assert_eq!(picture(Some(&node)), "(((- 3r -) 5b -) 10b -)");
    let mut node = join(10, Color::Black, Some(leaf(5, Color::Red)), None);
    assert!(matches!(node.add_case(true), AddCase::Settled));
    Node::fix_on_add(&mut node, true);
    assert_eq!(picture(Some(&node)), "((- 5r -) 10b -)");
}

#[test]
fn fix_on_remove_with_black_nephews_recolors() {
    let mut node = join(10, Color::Red, None, Some(leaf(20, Color::Black)));
    assert!(matches!(node.remove_case(true), RemoveCase::BothBlack));
    assert!(!Node::fix_on_remove(&mut node, true));
    assert_eq!(picture(Some(&node)), "(- 10b (- 20r -))");

    let mut node = join(10, Color::Black, Some(leaf(5, Color::Black)), None);
    assert!(matches!(node.remove_case(false), RemoveCase::BothBlack));
    assert!(Node::fix_on_remove(&mut node, false));
    assert_eq!(picture(Some(&node)), "((- 5r -) 10b -)");
}

#[test]
fn fix_on_remove_with_a_red_far_nephew_rotates_the_parent() {
    for color in [Color::Red, Color::Black] {
        let mark = if matches!(color, Color::Red) { "r" } else { "b" };
        let mut node = join(10, color, None, Some(join(20, Color::Black, None, Some(leaf(30, Color::Red)))));
        assert!(matches!(node.remove_case(true), RemoveCase::FarRed));
        assert!(!Node::fix_on_remove(&mut node, true));
        assert_eq!(picture(Some(&node)), format!("((- 10b -) 20{} (- 30b -))", mark));

        let mut node = join(
            10,
            color,
            Some(join(5, Color::Black, Some(leaf(2, Color::Red)), Some(leaf(7, Color::Red)))),
            None,
        );
        assert!(matches!(node.remove_case(false), RemoveCase::FarRed));
        assert!(!Node::fix_on_remove(&mut node, false));
        assert_eq!(picture(Some(&node)), format!("((- 2b -) 5{} ((- 7r -) 10b -))", mark));
    }
}

#[test]
fn fix_on_remove_with_a_red_near_nephew_rotates_the_sibling_first() {
    let mut node = join(10, Color::Red, None, Some(join(20, Color::Black, Some(leaf(15, Color::Red)), None)));
    assert!(matches!(node.remove_case(true), RemoveCase::NearRed));
    assert!(!Node::fix_on_remove(&mut node, true));
    assert_eq!(picture(Some(&node)), "((- 10b -) 15r (- 20b -))");

    let mut node = join(10, Color::Black, Some(join(5, Color::Black, None, Some(leaf(7, Color::Red)))), None);
    assert!(matches!(node.remove_case(false), RemoveCase::NearRed));
    assert!(!Node::fix_on_remove(&mut node, false));
    assert_eq!(picture(Some(&node)), "((- 5b -) 7b (- 10b -))");
}

#[test]
fn fix_on_remove_with_a_red_sibling_goes_on_below() {
    let mut node = join(
        10,
        Color::Black,
        None,
        Some(join(20, Color::Red, Some(leaf(15, Color::Black)), Some(leaf(30, Color::Black)))),
    );
    assert!(matches!(node.remove_case(true), RemoveCase::SiblingRed));
    assert!(!Node::fix_on_remove(&mut node, true));
    assert_eq!(picture(Some(&node)), "((- 10b (- 15r -)) 20b (- 30b -))");

    let mut node = join(
        10,
        Color::Black,
        Some(join(
            5,
            Color::Red,
            Some(leaf(2, Color::Black)),
            Some(join(7, Color::Black, Some(leaf(6, Color::Red)), None)),
        )),
        None,
    );
    assert!(matches!(node.remove_case(false), RemoveCase::SiblingRed));
    assert!(!Node::fix_on_remove(&mut node, false));
    assert_eq!(picture(Some(&node)), "((- 2b -) 5b ((- 6b -) 7r (- 10b -)))");
}
