use collections::binary::BinarySearchTree;

struct IoTDevice {
    id: u64,
    _address: String,
}

fn device(id: u64) -> IoTDevice {
    IoTDevice {
        id,
        _address: "".to_string(),
    }
}

#[test]
fn find() {}

#[test]
fn walk() {
    let mut set = BinarySearchTree::default();
    set.add(4, device(4));
    set.add(7, device(7));
    set.add(8, device(8));
    set.add(2, device(2));
    set.add(1, device(1));
    set.add(3, device(3));
    set.add(6, device(6));
    set.add(9, device(9));
    set.add(5, device(5));

    let mut items = Vec::default();
    set.walk(|(_item, dev)| items.push(dev.id));
    assert_eq!(items, vec![1, 2, 3, 4, 5, 6, 7, 8, 9]);
}

#[test]
fn binary_find_returns_latest_value() {
    let mut tree = BinarySearchTree::default();
    assert_eq!(tree.find(&1), None);
    for key in [50, 20, 70, 10, 30, 60, 80, 20, 70] {
        tree.add(key, key * 2);
    }
    tree.add(30, 1);
    assert_eq!(tree.find(&30), Some(&1));
    assert_eq!(tree.find(&20), Some(&40));
    assert_eq!(tree.find(&80), Some(&160));
    assert_eq!(tree.find(&55), None);
    let keys: Vec<i32> = tree.in_order().iter().map(|(key, _)| **key).collect();
    assert_eq!(keys, vec![10, 20, 30, 50, 60, 70, 80]);
}
