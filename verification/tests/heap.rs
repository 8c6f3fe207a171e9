use topk::order::not_greater;
use topk::MinHeap;

#[test]
fn pops_in_ascending_order() {
    let mut heap = MinHeap::with_capacity(4);
    for item in [5, 3, 9, 1, 7, 3, 8, 2, 6, 4, 0] {
        heap.push(item);
    }
    assert_eq!(heap.len(), 11);
    let mut out = Vec::new();
    while let Some(item) = heap.pop() {
        out.push(item);
    }
    assert_eq!(out, vec![0, 1, 2, 3, 3, 4, 5, 6, 7, 8, 9]);
    assert_eq!(heap.len(), 0);
}

#[test]
fn pop_on_empty_heap_is_none() {
    let mut heap: MinHeap<i32> = MinHeap::with_capacity(0);
    assert_eq!(heap.pop(), None);
    heap.push(1);
    assert_eq!(heap.pop(), Some(1));
    assert_eq!(heap.pop(), None);
}

#[test]
fn to_vec_lists_every_item_and_keeps_the_heap() {
    let mut heap = MinHeap::with_capacity(2);
    for item in ["d", "a", "c", "b"] {
        heap.push(item.to_string());
    }
    let mut listed = heap.to_vec();
    assert_eq!(listed[0], "a");
    listed.sort();
    assert_eq!(listed, vec!["a", "b", "c", "d"]);
    assert_eq!(heap.len(), 4);
    assert_eq!(heap.pop(), Some("a".to_string()));
}

#[test]
fn push_and_pop_interleave() {
    let mut heap = MinHeap::with_capacity(8);
    let mut x: u32 = 7;
    let mut held: Vec<u32> = Vec::new();
    for round in 0..500 {
        x = x.wrapping_mul(1664525).wrapping_add(1013904223);
        if round % 3 == 2 {
            held.sort();
            let want = if held.is_empty() { None } else { Some(held.remove(0)) };
            assert_eq!(heap.pop(), want);
        } else {
            let item = (x >> 16) % 50;
            heap.push(item);
            held.push(item);
        }
        assert_eq!(heap.len(), held.len());
    }
}

#[test]
fn not_greater_follows_the_order() {
    assert!(not_greater(&1, &2));
    assert!(not_greater(&2, &2));
    assert!(!not_greater(&3, &2));
    assert!(not_greater(&"a", &"b"));
    assert!(!not_greater(&(1, 2), &(1, 1)));
}

#[test]
fn clone_holds_the_same_items() {
    let mut heap = MinHeap::with_capacity(3);
    for item in [4, 2, 6] {
        heap.push(item);
    }
    let mut copy = heap.clone();
    copy.push(1);
    assert_eq!(heap.pop(), Some(2));
    assert_eq!(copy.pop(), Some(1));
    assert_eq!(copy.pop(), Some(2));
    assert_eq!(heap.len(), 2);
    assert_eq!(copy.len(), 2);
}
