use oof::queue::IndexQueue;

fn drain(queue: &mut IndexQueue) -> Vec<u128> {
    let mut out = Vec::new();
    while let Some(index) = queue.pop() {
        out.push(index);
    }
    out
}

#[test]
fn queue_of_nothing_hands_out_nothing() {
    let mut queue = IndexQueue::from_ascending(Vec::new());
    assert_eq!(queue.pop(), None);
    assert_eq!(queue.pop(), None);
}

#[test]
fn queue_hands_out_the_largest_first() {
    let mut queue = IndexQueue::from_ascending(vec![1, 2, 3, 5, 8, 13, 21]);
    assert_eq!(drain(&mut queue), vec![21, 13, 8, 5, 3, 2, 1]);
}

#[test]
fn queue_takes_items_in_any_order() {
    let mut queue = IndexQueue::from_ascending(Vec::new());
    for index in [5u128, 1, 9, 3, 7, 2, 8, 6, 4, 0] {
        queue.push(index);
    }
    assert_eq!(drain(&mut queue), vec![9, 8, 7, 6, 5, 4, 3, 2, 1, 0]);
}

#[test]
fn queue_keeps_an_item_as_often_as_it_was_added() {
    let mut queue = IndexQueue::from_ascending(vec![4, 4, 7]);
    queue.push(7);
    queue.push(4);
    queue.push(u128::MAX);
    assert_eq!(drain(&mut queue), vec![u128::MAX, 7, 7, 4, 4, 4]);
}

#[test]
fn queue_mixes_pushes_and_pops() {
    let mut queue = IndexQueue::from_ascending(vec![10, 20, 30]);
    assert_eq!(queue.pop(), Some(30));
    queue.push(15);
    queue.push(25);
    assert_eq!(queue.pop(), Some(25));
    assert_eq!(queue.pop(), Some(20));
    queue.push(1);
    assert_eq!(drain(&mut queue), vec![15, 10, 1]);
}

#[test]
fn queue_orders_many_items() {
    let mut queue = IndexQueue::from_ascending((0..50u128).collect());
    let mut state: u128 = 12345;
    let mut added = Vec::new();
    for _ in 0..200 {
        state = state.wrapping_mul(6364136223846793005).wrapping_add(1442695040888963407);
        let index = state >> 64;
        added.push(index);
        queue.push(index);
    }
    let mut expected: Vec<u128> = (0..50u128).chain(added.into_iter()).collect();
    expected.sort();
    expected.reverse();
    assert_eq!(drain(&mut queue), expected);
}
