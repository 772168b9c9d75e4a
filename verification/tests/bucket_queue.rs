use state_search::bucket_queue::BucketQueue;
use state_search::frontier::Frontier;

#[test]
fn pop_on_an_empty_queue_is_none() {
    let mut q: BucketQueue<u32> = BucketQueue::new(3);
    assert_eq!(q.pop(), None);
    assert_eq!(q.cursor(), 0);
    assert_eq!(q.max_priority(), 3);
}

#[test]
fn items_come_out_by_priority() {
    let mut q: BucketQueue<char> = BucketQueue::new(9);
    q.insert(5, 'e');
    q.insert(2, 'b');
    q.insert(9, 'z');
    q.insert(0, 'a');
    assert_eq!(q.pop(), Some('a'));
    assert_eq!(q.cursor(), 0);
    assert_eq!(q.pop(), Some('b'));
    assert_eq!(q.cursor(), 2);
    assert_eq!(q.pop(), Some('e'));
    assert_eq!(q.pop(), Some('z'));
    assert_eq!(q.cursor(), 9);
    assert_eq!(q.pop(), None);
    assert_eq!(q.cursor(), 9);
}

#[test]
fn within_a_bucket_the_front_goes_first_and_the_last_takes_its_place() {
    let mut q: BucketQueue<u32> = BucketQueue::new(1);
    q.insert(1, 10);
    q.insert(1, 20);
    q.insert(1, 30);
    assert_eq!(q.pop(), Some(10));
    assert_eq!(q.pop(), Some(30));
    assert_eq!(q.pop(), Some(20));
    assert_eq!(q.pop(), None);
}

#[test]
fn interleaved_calls_give_non_decreasing_priorities_and_lose_nothing() {
    let mut q: BucketQueue<(usize, u32)> = BucketQueue::new(20);
    let mut inserted: Vec<(usize, u32)> = Vec::new();
    let mut popped: Vec<(usize, u32)> = Vec::new();
    let mut seed: u32 = 12345;
    for round in 0..200u32 {
        seed = seed.wrapping_mul(1103515245).wrapping_add(12345);
        let pick = (seed >> 16) % 3;
        if pick < 2 {
            let span = 20 - q.cursor();
            let p = q.cursor() + ((seed >> 8) as usize % (span + 1));
            q.insert(p, (p, round));
            inserted.push((p, round));
        } else if let Some(item) = q.pop() {
            assert_eq!(item.0, q.cursor());
            popped.push(item);
        }
    }
    while let Some(item) = q.pop() {
        assert_eq!(item.0, q.cursor());
        popped.push(item);
    }
    for pair in popped.windows(2) {
        assert!(pair[0].0 <= pair[1].0);
    }
    inserted.sort();
    popped.sort();
    assert_eq!(inserted, popped);
}

#[test]
fn queue_works_as_a_frontier() {
    let mut q: BucketQueue<u8> = BucketQueue::new(4);
    assert_eq!(q.limit(), 4);
    q.push(3, 7);
    q.push(1, 9);
    assert_eq!(q.pop_min(), Some((1, 9)));
    q.push(1, 5);
    assert_eq!(q.pop_min(), Some((1, 5)));
    assert_eq!(q.pop_min(), Some((3, 7)));
    assert_eq!(q.pop_min(), None);
}
