use collections::doubly_linked_list::BetterTransactionLog;

#[test]
fn doubly_linked_list_transaction_log_append() {
    let mut transaction_log = BetterTransactionLog::new_empty();
    assert_eq!(transaction_log.length(), 0);
    transaction_log.append("INSERT INTO my table VALUES (1,2,3)".to_owned());
    transaction_log.append("INSERT INTO my table VALUES (2,3,4)".to_owned());
    transaction_log.append("INSERT INTO my table VALUES (3,4,5)".to_owned());
    assert_eq!(transaction_log.length(), 3);
    assert_eq!(
        transaction_log.pop(),
        Some("INSERT INTO my table VALUES (1,2,3)".to_owned())
    );
    assert_eq!(
        transaction_log.pop(),
        Some("INSERT INTO my table VALUES (2,3,4)".to_owned())
    );
    assert_eq!(
        transaction_log.pop(),
        Some("INSERT INTO my table VALUES (3,4,5)".to_owned())
    );
    assert_eq!(transaction_log.pop(), None);
}

#[test]
fn doubly_linked_list_better_transaction_log_pop() {
    let mut list = BetterTransactionLog::new_empty();
    assert_eq!(list.pop(), None);
    list.append("INSERT INTO my table VALUES (1,2,3)".to_owned());
    list.append("INSERT INTO my table VALUES (1,2,4)".to_owned());
    list.append("INSERT INTO my table VALUES (1,2,3)".to_owned());
    assert_eq!(
        list.pop(),
        Some("INSERT INTO my table VALUES (1,2,3)".to_owned())
    );
    assert_eq!(
        list.pop(),
        Some("INSERT INTO my table VALUES (1,2,4)".to_owned())
    );
    assert_eq!(
        list.pop(),
        Some("INSERT INTO my table VALUES (1,2,3)".to_owned())
    );
    assert_eq!(list.pop(), None);
}

#[test]
fn doubly_linked_list_better_transaction_log_iterator() {
    let mut list = BetterTransactionLog::new_empty();
    assert_eq!(list.pop(), None);
    list.append("INSERT INTO my table VALUES (1,2,3)".to_owned());
    list.append("INSERT INTO my table VALUES (2,3,4)".to_owned());
    list.append("INSERT INTO my table VALUES (3,4,5)".to_owned());
    let mut iter = list.iter();
    assert_eq!(
        iter.next(),
        Some(&"INSERT INTO my table VALUES (1,2,3)".to_owned())
    );
    assert_eq!(
        iter.next(),
        Some(&"INSERT INTO my table VALUES (2,3,4)".to_owned())
    );
    assert_eq!(
        iter.next(),
        Some(&"INSERT INTO my table VALUES (3,4,5)".to_owned())
    );

    let mut iter = list.back_iter();
    assert_eq!(
        iter.next_back(),
        Some(&"INSERT INTO my table VALUES (3,4,5)".to_owned())
    );
    assert_eq!(
        iter.next_back(),
        Some(&"INSERT INTO my table VALUES (2,3,4)".to_owned())
    );
    assert_eq!(
        iter.next_back(),
        Some(&"INSERT INTO my table VALUES (1,2,3)".to_owned())
    );
}

#[test]
fn doubly_linked_list_better_transaction_log_clone_and_pop() {
    let mut list = BetterTransactionLog::new_empty();
    assert_eq!(list.pop(), None);
    list.append("INSERT INTO my table VALUES (1,2,3)".to_owned());
    list.append("INSERT INTO my table VALUES (2,3,4)".to_owned());
    list.append("INSERT INTO my table VALUES (3,4,5)".to_owned());

    let mut iter = list.back_iter();
    assert_eq!(
        iter.next_back(),
        Some(&"INSERT INTO my table VALUES (3,4,5)".to_owned())
    );
    assert_eq!(
        iter.next_back(),
        Some(&"INSERT INTO my table VALUES (2,3,4)".to_owned())
    );

    assert_eq!(
        list.pop(),
        Some("INSERT INTO my table VALUES (1,2,3)".to_owned())
    );
    assert_eq!(
        list.pop(),
        Some("INSERT INTO my table VALUES (2,3,4)".to_owned())
    );
    assert_eq!(
        list.pop(),
        Some("INSERT INTO my table VALUES (3,4,5)".to_owned())
    );
}

#[test]
fn doubly_linked_walks_end_at_both_ends() {
    let mut list = BetterTransactionLog::new_empty();
    assert!(list.iter().next().is_none());
    assert!(list.back_iter().next_back().is_none());
    list.append("a".to_owned());
    list.append("b".to_owned());
    let mut walk = list.iter();
    assert_eq!(walk.next(), Some(&"a".to_owned()));
    assert_eq!(walk.next(), Some(&"b".to_owned()));
    assert_eq!(walk.next(), None);
    assert_eq!(walk.next(), None);
    let mut walk = list.back_iter();
    assert_eq!(walk.next_back(), Some(&"b".to_owned()));
    assert_eq!(walk.next(), Some(&"a".to_owned()));
    assert_eq!(walk.next_back(), Some(&"b".to_owned()));
    assert_eq!(walk.next_back(), Some(&"a".to_owned()));
    assert_eq!(walk.next_back(), None);
}

#[test]
fn doubly_linked_pop_and_append_interleaved() {
    let mut list = BetterTransactionLog::new_empty();
    let mut expected = std::collections::VecDeque::new();
    let mut next = 0;
    for round in 0..50 {
        for _ in 0..(round % 7) + 1 {
            list.append(format!("entry {}", next));
            expected.push_back(format!("entry {}", next));
            next += 1;
        }
        for _ in 0..(round % 5) {
            assert_eq!(list.pop(), expected.pop_front());
        }
        assert_eq!(list.length(), expected.len());
        let mut walk = list.iter();
        for entry in expected.iter() {
            assert_eq!(walk.next(), Some(entry));
        }
        assert_eq!(walk.next(), None);
        let mut walk = list.back_iter();
        for entry in expected.iter().rev() {
            assert_eq!(walk.next_back(), Some(entry));
        }
        assert_eq!(walk.next_back(), None);
    }
    while let Some(entry) = expected.pop_front() {
        assert_eq!(list.pop(), Some(entry));
    }
    assert_eq!(list.pop(), None);
    assert_eq!(list.length(), 0);
}
