use collections::heap::Heap;
use rand::seq::SliceRandom;

#[test]
fn it_works() {
    let mut rng = rand::thread_rng();
    let mut values: Vec<i32> = (0..100).collect();
    values.shuffle(&mut rng);

    let mut heap = Heap::default();
    for value in values {
        heap.push(value);
    }

    let mut drained = Vec::new();
    let mut drain = heap.drain();
    while let Some(value) = drain.next() {
        drained.push(value);
    }
    assert_eq!(drained, (0..100).collect::<Vec<i32>>())
}

#[test]
fn heap_pops_equal_values_as_often_as_pushed() {
    let mut heap = Heap::default();
    assert_eq!(heap.pop(), None);
    for value in [5, 1, 5, 3, 1, 1, 9, 0, 5] {
        heap.push(value);
    }
    let mut popped = Vec::new();
    while let Some(value) = heap.pop() {
        popped.push(value);
    }
    assert_eq!(popped, vec![0, 1, 1, 1, 3, 5, 5, 5, 9]);
    assert_eq!(heap.pop(), None);
    heap.push(2);
    assert_eq!(heap.pop(), Some(2));
}

#[test]
fn heap_sorts_every_size() {
    let mut rng = rand::thread_rng();
    for size in 0..40 {
        let mut values: Vec<u32> = (0..size).map(|v| v / 2).collect();
        values.shuffle(&mut rng);
        let mut heap = Heap::default();
        for value in values.iter() {
            heap.push(*value);
        }
        values.sort();
        let mut popped = Vec::new();
        while let Some(value) = heap.pop() {
            popped.push(value);
        }
        assert_eq!(popped, values);
    }
}
