use collections::b_tree::BTree;
use rand::seq::SliceRandom;
use rand::Rng;

#[test]
fn add_and_remove() {
    let test_nums = 1000usize;
    let mut b_tree = BTree::default();
    let mut nums: Vec<usize> = (0..test_nums).collect();
    let mut rng = rand::thread_rng();
    nums.shuffle(&mut rng);
    let mut len = 0usize;
    for &i in nums.iter() {
        assert_eq!(b_tree.add(i, i), None);
        assert!(b_tree.is_valid());
        len += 1;
        assert_eq!(b_tree.len(), len);
    }

    assert_eq!(b_tree.add(100, 100), Some(100));
    assert_eq!(b_tree.len(), len);
    assert_eq!(len, test_nums);

    nums.shuffle(&mut rng);
    for &i in nums.iter() {
        assert_eq!(b_tree.remove(&i), Some(i));
        assert!(b_tree.is_valid());
        len -= 1;
        assert_eq!(b_tree.len(), len);
    }

    assert_eq!(len, 0);
    assert_eq!(b_tree.remove(&10), None);
    assert_eq!(b_tree.len(), 0);
}

#[test]
fn iter() {
    let test_nums = 100_000usize;
    let mut nums: Vec<usize> = (0..test_nums).collect();
    let mut rng = rand::thread_rng();
    nums.shuffle(&mut rng);
    let mut b_tree = BTree::new(256);
    for &i in nums.iter() {
        b_tree.add(i, i);
    }

    let mut num = 0usize;
    let mut walk = b_tree.iter();
    while let Some(&(key, value)) = walk.next() {
        assert_eq!(key, num);
        assert_eq!(value, num);
        num += 1;
    }
    assert_eq!(num, b_tree.len());
}

#[test]
fn iter_std_b_tree() {
    let test_nums = 100_000usize;
    let mut nums: Vec<usize> = (0..test_nums).collect();
    let mut rng = rand::thread_rng();
    nums.shuffle(&mut rng);
    let mut b_tree = std::collections::btree_map::BTreeMap::default();
    for &i in nums.iter() {
        b_tree.insert(i, i);
    }

    let mut num = 0usize;
    for (&key, &value) in b_tree.iter() {
        assert_eq!(key, num);
        assert_eq!(value, num);
        num += 1;
    }
    assert_eq!(num, b_tree.len());
}

fn same_as(tree: &BTree<u32, u32>, expected: &std::collections::BTreeMap<u32, u32>) {
    assert_eq!(tree.len(), expected.len());
    assert_eq!(tree.is_empty(), expected.is_empty());
    assert!(tree.is_valid());
    let mut walk = tree.iter();
    assert_eq!(walk.size_hint(), (expected.len(), Some(expected.len())));
    let mut left = expected.len();
    for (key, value) in expected.iter() {
        assert_eq!(walk.next(), Some(&(*key, *value)));
        left -= 1;
        assert_eq!(walk.size_hint(), (left, Some(left)));
    }
    assert_eq!(walk.next(), None);
    assert_eq!(walk.next(), None);
}

#[test]
fn b_tree_small_orders_against_the_standard_map() {
    let mut rng = rand::thread_rng();
    for order in 4..9 {
        let mut tree = BTree::new(order);
        let mut expected = std::collections::BTreeMap::new();
        same_as(&tree, &expected);
        for round in 0..600 {
            let key = rng.gen_range(0..120u32);
            if rng.gen_range(0..3) > 0 || round < 100 {
                assert_eq!(tree.add(key, round), expected.insert(key, round));
            } else {
                assert_eq!(tree.remove(&key), expected.remove(&key));
            }
            same_as(&tree, &expected);
        }
        let keys: Vec<u32> = expected.keys().copied().collect();
        for key in keys {
            assert_eq!(tree.remove(&key), expected.remove(&key));
            same_as(&tree, &expected);
        }
        assert!(tree.is_empty());
    }
}

#[test]
fn b_tree_ascending_and_descending_runs() {
    let mut tree = BTree::new(4);
    for key in 0..500 {
        assert_eq!(tree.add(key, key * 2), None);
        assert!(tree.is_valid());
    }
    for key in (0..500).rev() {
        assert_eq!(tree.add(key, key * 3), Some(key * 2));
    }
    assert_eq!(tree.len(), 500);
    for key in 0..250 {
        assert_eq!(tree.remove(&key), Some(key * 3));
        assert!(tree.is_valid());
    }
    for key in (250..500).rev() {
        assert_eq!(tree.remove(&key), Some(key * 3));
        assert!(tree.is_valid());
    }
    assert_eq!(tree.len(), 0);
    assert_eq!(tree.remove(&1), None);
    assert!(tree.iter().next().is_none());
}
