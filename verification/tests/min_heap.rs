use state_search::frontier::Frontier;
use state_search::min_heap::MinHeap;

#[test]
fn new_heap_is_empty() {
    let mut h: MinHeap<u32> = MinHeap::new();
    assert!(h.is_empty());
    assert_eq!(h.len(), 0);
    assert_eq!(h.peek_min(), None);
    assert_eq!(h.pop_min(), None);
    assert_eq!(h.limit(), u64::MAX);
}

#[test]
fn entries_come_out_in_order_of_priority() {
    let mut h: MinHeap<char> = MinHeap::new();
    for (p, c) in [(5u64, 'e'), (1, 'a'), (9, 'z'), (3, 'c'), (4, 'd'), (2, 'b')] {
        h.push(p, c);
    }
    assert_eq!(h.len(), 6);
    assert_eq!(h.peek_min(), Some((1, 'a')));
    let mut out = Vec::new();
    while let Some(e) = h.pop_min() {
        out.push(e);
    }
    assert_eq!(out, vec![(1, 'a'), (2, 'b'), (3, 'c'), (4, 'd'), (5, 'e'), (9, 'z')]);
    assert!(h.is_empty());
}

#[test]
fn lower_priorities_may_arrive_late() {
    let mut h: MinHeap<u32> = MinHeap::new();
    h.push(10, 1);
    h.push(20, 2);
    assert_eq!(h.pop_min(), Some((10, 1)));
    h.push(5, 3);
    assert_eq!(h.pop_min(), Some((5, 3)));
    assert_eq!(h.pop_min(), Some((20, 2)));
}

#[test]
fn many_pushes_and_pops_keep_every_entry() {
    let mut h: MinHeap<u32> = MinHeap::new();
    let mut seed: u64 = 99;
    let mut pushed: Vec<(u64, u32)> = Vec::new();
    let mut popped: Vec<(u64, u32)> = Vec::new();
    for round in 0..500u32 {
        seed = seed.wrapping_mul(6364136223846793005).wrapping_add(1442695040888963407);
        if (seed >> 33) % 3 < 2 {
            let p = (seed >> 40) % 50;
            h.push(p, round);
            pushed.push((p, round));
        } else if let Some(e) = h.pop_min() {
            let least = pushed.iter().filter(|x| !popped.contains(x)).map(|x| x.0).min().unwrap();
            assert_eq!(e.0, least);
            popped.push(e);
        }
    }
    let mut last = 0;
    while let Some(e) = h.pop_min() {
        assert!(last <= e.0);
        last = e.0;
        popped.push(e);
    }
    pushed.sort();
    popped.sort();
    assert_eq!(pushed, popped);
}
