use collections::dynamic_array::TimestampSaver;

#[test]
fn timestamps_grow_by_half() {
    let mut saver = TimestampSaver::new_empty();
    assert_eq!(saver.cap(), 10);
    assert_eq!(saver.length, 0);
    assert_eq!(saver.at(0), None);
    for i in 0..10 {
        saver.append(i * 3);
        assert_eq!(saver.cap(), 10);
    }
    saver.append(30);
    assert_eq!(saver.cap(), 15);
    assert_eq!(saver.length, 11);
    for i in 11..16 {
        saver.append(i * 3);
    }
    assert_eq!(saver.cap(), 22);
    for i in 0..16 {
        assert_eq!(saver.at(i), Some(i as u64 * 3));
    }
    assert_eq!(saver.at(16), None);
    assert_eq!(saver.at(usize::MAX), None);
}

#[test]
fn timestamps_walk_forward_and_back() {
    let mut saver = TimestampSaver::new_empty();
    for i in 0..12 {
        saver.append(100 + i);
    }
    let mut walk = saver.into_iter();
    for i in 0..12 {
        assert_eq!(walk.next(), Some(100 + i));
    }
    assert_eq!(walk.next(), None);
    assert_eq!(walk.next_back(), None);

    let mut saver = TimestampSaver::new_empty();
    saver.append(1);
    saver.append(2);
    saver.append(3);
    let mut walk = saver.into_iter();
    assert_eq!(walk.next(), Some(1));
    assert_eq!(walk.next(), Some(2));
    assert_eq!(walk.next_back(), Some(3));
    assert_eq!(walk.next_back(), Some(2));
    assert_eq!(walk.next_back(), Some(1));
    assert_eq!(walk.next_back(), None);
    assert_eq!(walk.next(), None);
}
