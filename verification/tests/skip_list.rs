use collections::skip_list::BestTransactionLog;
use rand::Rng;

const LIST_ITEMS: u64 = 15_000;

#[test]
fn skip_list_test_skip_list() {
    let mut log = BestTransactionLog::new_empty(20);

    log.append(0, format!("INSERT DATA {}", 0));

    assert_eq!(log.length(), 1);

    assert_eq!(log.find(0).expect("NOT FOUND"), format!("INSERT DATA {}", 0));
}

#[test]
fn skip_list_test_skip_list_find() {
    let mut log = BestTransactionLog::new_empty(20);
    for i in 0..LIST_ITEMS {
        log.append(i, format!("INSERT DATA {}", i));
    }

    let mut rng = rand::thread_rng();
    for _ in 0..LIST_ITEMS {
        let i = rng.gen_range(0..LIST_ITEMS);
        assert_eq!(log.find(i).expect("NOT FOUND"), format!("INSERT DATA {}", i));
    }
}

#[test]
fn skip_list_skip_list_append() {
    let mut list = BestTransactionLog::new_empty(3);
    list.append(1, "INSERT INTO my table VALUES (1,2,3)".to_owned());
    list.append(2, "INSERT INTO my table VALUES (1,2,3)".to_owned());
    list.append(3, "INSERT INTO my table VALUES (1,2,3)".to_owned());
    list.append(4, "INSERT INTO my table VALUES (1,2,3)".to_owned());
    list.append(5, "INSERT INTO my table VALUES (1,2,3)".to_owned());
    list.append(6, "INSERT INTO my table VALUES (1,2,3)".to_owned());
    list.append(7, "INSERT INTO my table VALUES (1,2,3)".to_owned());
    assert_eq!(list.length(), 7);
}

#[test]
fn skip_list_skip_list_find() {
    let mut list = BestTransactionLog::new_empty(3);
    list.append(1, "INSERT INTO my table VALUES (1)".to_owned());
    list.append(2, "INSERT INTO my table VALUES (2)".to_owned());
    list.append(3, "INSERT INTO my table VALUES (3)".to_owned());
    list.append(4, "INSERT INTO my table VALUES (4)".to_owned());
    list.append(5, "INSERT INTO my table VALUES (5)".to_owned());
    list.append(6, "INSERT INTO my table VALUES (6)".to_owned());
    list.append(7, "INSERT INTO my table VALUES (7)".to_owned());
    assert_eq!(list.length(), 7);
    assert_eq!(
        list.find(7),
        Some("INSERT INTO my table VALUES (7)".to_owned())
    );
    assert_eq!(
        list.find(6),
        Some("INSERT INTO my table VALUES (6)".to_owned())
    );
    assert_eq!(
        list.find(5),
        Some("INSERT INTO my table VALUES (5)".to_owned())
    );
    assert_eq!(
        list.find(4),
        Some("INSERT INTO my table VALUES (4)".to_owned())
    );
    assert_eq!(
        list.find(3),
        Some("INSERT INTO my table VALUES (3)".to_owned())
    );
    assert_eq!(
        list.find(2),
        Some("INSERT INTO my table VALUES (2)".to_owned())
    );
    assert_eq!(
        list.find(1),
        Some("INSERT INTO my table VALUES (1)".to_owned())
    );
}

#[test]
fn skip_list_misses() {
    let mut log = BestTransactionLog::new_empty(4);
    assert_eq!(log.find(3), None);
    log.append(10, "ten".to_owned());
    assert_eq!(log.find(3), None);
    assert_eq!(log.find(11), None);
    for offset in (20..200).step_by(10) {
        log.append(offset, format!("{}", offset));
    }
    assert_eq!(log.find(0), None);
    assert_eq!(log.find(15), None);
    assert_eq!(log.find(195), None);
    assert_eq!(log.find(200), None);
    assert_eq!(log.find(u64::MAX), None);
    assert_eq!(log.find(190), Some("190".to_owned()));
    assert_eq!(log.find(10), Some("ten".to_owned()));
}

#[test]
fn skip_list_lane_zero_holds_every_entry() {
    let mut log = BestTransactionLog::new_empty(5);
    assert!(log.iter(0).next().is_none());
    for offset in 0..100 {
        log.append(offset, format!("command {}", offset));
    }
    let mut walk = log.iter(0);
    for offset in 0..100 {
        assert_eq!(walk.next(), Some((offset, format!("command {}", offset))));
    }
    assert_eq!(walk.next(), None);
    for level in 1..=5 {
        let mut walk = log.iter(level);
        let mut last = None;
        let mut count = 0;
        while let Some((offset, command)) = walk.next() {
            assert_eq!(command, format!("command {}", offset));
            if let Some(last) = last {
                assert!(last < offset);
            } else {
                assert_eq!(offset, 0);
            }
            last = Some(offset);
            count += 1;
        }
        assert!(count >= 1);
    }
}

#[test]
fn skip_list_chosen_levels() {
    let mut log = BestTransactionLog::new_empty(2);
    log.append_at_level(3, 1, "a".to_owned());
    log.append_at_level(1, 2, "b".to_owned());
    log.append_at_level(2, 3, "c".to_owned());
    log.append_at_level(1, 4, "d".to_owned());
    log.append_at_level(3, 5, "e".to_owned());
    let lane = |level: usize| {
        let mut offsets = Vec::new();
        let mut walk = log.iter(level);
        while let Some((offset, _)) = walk.next() {
            offsets.push(offset);
        }
        offsets
    };
    assert_eq!(lane(0), vec![1, 2, 3, 4, 5]);
    assert_eq!(lane(1), vec![1, 3, 5]);
    assert_eq!(lane(2), vec![1, 5]);
    for offset in 1..=5 {
        assert!(log.find(offset).is_some());
    }
    assert_eq!(log.find(4), Some("d".to_owned()));
    assert_eq!(log.find(6), None);
}
