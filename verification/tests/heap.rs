use fibheap::FibHeap;

#[test]
fn single_element() {
    let mut heap = FibHeap::new();
    heap.insert(1);
    assert_eq!(heap.pop_min(), Some(1));
    assert_eq!(heap.pop_min(), None);
}

#[test]
fn two_elements() {
    let mut heap = FibHeap::new();
    heap.insert(2);
    heap.insert(1);
    assert_eq!(heap.pop_min(), Some(1));
    assert_eq!(heap.pop_min(), Some(2));
    assert_eq!(heap.pop_min(), None);
}

#[test]
fn insert_and_pop_four() {
    let mut heap = FibHeap::new();
    heap.insert(0);
    heap.insert(0);
    heap.insert(0);
    heap.insert(0);
    assert_eq!(heap.pop_min(), Some(0));
    assert_eq!(heap.pop_min(), Some(0));
    assert_eq!(heap.pop_min(), Some(0));
    assert_eq!(heap.pop_min(), Some(0));
    assert_eq!(heap.pop_min(), None);
}

#[test]
fn merge_interleaving() {
    let mut h1 = FibHeap::new();
    let mut h2 = FibHeap::new();
    h1.insert(1);
    h1.insert(3);
    h2.insert(2);
    h2.insert(4);
    let mut heap = FibHeap::merge(h1, h2);
    assert_eq!(heap.pop_min(), Some(1));
    assert_eq!(heap.pop_min(), Some(2));
    assert_eq!(heap.pop_min(), Some(3));
    assert_eq!(heap.pop_min(), Some(4));
    assert_eq!(heap.pop_min(), None);
}

#[test]
fn empty_heap_pops_nothing() {
    let mut heap = FibHeap::new();
    assert_eq!(heap.pop_min(), None);
    assert_eq!(heap.pop_min(), None);
}

#[test]
fn default_is_empty() {
    let mut heap = FibHeap::default();
    assert_eq!(heap.pop_min(), None);
}

#[test]
fn drains_in_sorted_order() {
    let mut heap = FibHeap::new();
    for key in [5, 1, 4, 2, 3] {
        heap.insert(key);
    }
    let mut drained = Vec::new();
    while let Some(key) = heap.pop_min() {
        drained.push(key);
    }
    assert_eq!(drained, vec![1, 2, 3, 4, 5]);
}

#[test]
fn duplicates_come_out_each_once() {
    let mut heap = FibHeap::new();
    heap.insert(2);
    heap.insert(1);
    heap.insert(2);
    assert_eq!(heap.pop_min(), Some(1));
    assert_eq!(heap.pop_min(), Some(2));
    assert_eq!(heap.pop_min(), Some(2));
    assert_eq!(heap.pop_min(), None);
}

#[test]
fn negative_keys_order_correctly() {
    let mut heap = FibHeap::new();
    heap.insert(0);
    heap.insert(-7);
    heap.insert(3);
    heap.insert(-7);
    assert_eq!(heap.pop_min(), Some(-7));
    assert_eq!(heap.pop_min(), Some(-7));
    assert_eq!(heap.pop_min(), Some(0));
    assert_eq!(heap.pop_min(), Some(3));
    assert_eq!(heap.pop_min(), None);
}

#[test]
fn merge_with_empty_keeps_contents() {
    let mut h1 = FibHeap::new();
    h1.insert(9);
    h1.insert(8);
    let h2 = FibHeap::new();
    let mut merged = FibHeap::merge(h1, h2);
    assert_eq!(merged.pop_min(), Some(8));
    assert_eq!(merged.pop_min(), Some(9));
    assert_eq!(merged.pop_min(), None);

    let h3 = FibHeap::new();
    let mut h4 = FibHeap::new();
    h4.insert(6);
    let mut merged = FibHeap::merge(h3, h4);
    assert_eq!(merged.pop_min(), Some(6));
    assert_eq!(merged.pop_min(), None);
}

#[test]
fn merge_of_two_empties_is_empty() {
    let mut merged = FibHeap::merge(FibHeap::new(), FibHeap::new());
    assert_eq!(merged.pop_min(), None);
}

#[test]
fn count_conservation_many_keys() {
    let mut heap = FibHeap::new();
    let mut n = 50;
    while n > 0 {
        heap.insert(n);
        n -= 1;
    }
    let mut count = 0;
    let mut expected = 1;
    while let Some(key) = heap.pop_min() {
        assert_eq!(key, expected);
        expected += 1;
        count += 1;
    }
    assert_eq!(count, 50);
    assert_eq!(heap.pop_min(), None);
}

#[test]
fn interleaved_inserts_and_pops() {
    let mut heap = FibHeap::new();
    heap.insert(10);
    heap.insert(4);
    assert_eq!(heap.pop_min(), Some(4));
    heap.insert(7);
    heap.insert(1);
    assert_eq!(heap.pop_min(), Some(1));
    assert_eq!(heap.pop_min(), Some(7));
    heap.insert(2);
    assert_eq!(heap.pop_min(), Some(2));
    assert_eq!(heap.pop_min(), Some(10));
    assert_eq!(heap.pop_min(), None);
}

#[test]
fn merge_counts_add_up() {
    let mut h1 = FibHeap::new();
    let mut h2 = FibHeap::new();
    for key in [3, 1, 3] {
        h1.insert(key);
    }
    for key in [2, 2] {
        h2.insert(key);
    }
    let mut merged = FibHeap::merge(h1, h2);
    let mut drained = Vec::new();
    while let Some(key) = merged.pop_min() {
        drained.push(key);
    }
    assert_eq!(drained, vec![1, 2, 2, 3, 3]);
}
