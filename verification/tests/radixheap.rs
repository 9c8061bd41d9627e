use negweight::radixheap::RadixHeap;

#[test]
fn heap_starts_empty_with_floor_zero() {
    let mut heap: RadixHeap<usize> = RadixHeap::new();
    assert!(heap.is_empty());
    assert_eq!(heap.len(), 0);
    assert_eq!(heap.top(), 0);
    assert_eq!(heap.pop(), None);
    assert_eq!(heap.top(), 0);
}

#[test]
fn heap_pops_in_ascending_order() {
    let mut heap: RadixHeap<usize> = RadixHeap::new();
    let keys = [5i64, 3, 9, 3, 0, 1 << 40, 17, 4, 4, 1];
    for (i, &k) in keys.iter().enumerate() {
        heap.push(k, i);
    }
    assert_eq!(heap.len(), keys.len());
    let mut popped = Vec::new();
    while let Some((k, v)) = heap.pop() {
        assert_eq!(keys[v], k);
        assert_eq!(heap.top(), k);
        popped.push(k);
    }
    let mut sorted = keys.to_vec();
    sorted.sort();
    assert_eq!(popped, sorted);
    assert!(heap.is_empty());
}

#[test]
fn heap_takes_pushes_at_or_above_its_floor() {
    let mut heap: RadixHeap<u8> = RadixHeap::new();
    heap.push(7, 1);
    heap.push(12, 2);
    assert_eq!(heap.pop(), Some((7, 1)));
    assert_eq!(heap.top(), 7);
    heap.push(7, 3);
    heap.push(9, 4);
    assert_eq!(heap.pop(), Some((7, 3)));
    assert_eq!(heap.pop(), Some((9, 4)));
    assert_eq!(heap.pop(), Some((12, 2)));
    assert_eq!(heap.pop(), None);
    assert_eq!(heap.top(), 12);
}

#[test]
fn heap_clear_resets_the_floor() {
    let mut heap: RadixHeap<usize> = RadixHeap::new();
    heap.push(100, 0);
    heap.push(200, 1);
    assert_eq!(heap.pop(), Some((100, 0)));
    heap.clear();
    assert!(heap.is_empty());
    assert_eq!(heap.top(), 0);
    heap.push(1, 5);
    assert_eq!(heap.pop(), Some((1, 5)));
}

#[test]
fn heap_stress_returns_the_sorted_input() {
    // keys are pushed in rounds; every round only holds keys at or above the floor
    let mut heap: RadixHeap<usize> = RadixHeap::new();
    let mut state: u64 = 0x2545_f491_4f6c_dd1d;
    let mut next = move || {
        state ^= state << 13;
        state ^= state >> 7;
        state ^= state << 17;
        state
    };
    let mut pushed: Vec<i64> = Vec::new();
    let mut popped: Vec<i64> = Vec::new();
    for _ in 0..200 {
        for _ in 0..50 {
            let key = heap.top() + (next() % 1_000_000) as i64;
            pushed.push(key);
            heap.push(key, pushed.len());
        }
        for _ in 0..25 {
            popped.push(heap.pop().unwrap().0);
        }
    }
    while let Some((k, _)) = heap.pop() {
        popped.push(k);
    }
    assert_eq!(popped.len(), 10_000);
    assert!(popped.windows(2).all(|w| w[0] <= w[1]));
    pushed.sort();
    assert_eq!(popped, pushed);
}
