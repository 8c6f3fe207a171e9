use topk::{CollectWith, Collector, TopKCollector};

fn sorted(mut items: Vec<i32>) -> Vec<i32> {
    items.sort();
    items
}

fn top_k(k: usize, items: &[i32]) -> Vec<i32> {
    let mut collector = TopKCollector::new(k);
    sorted(items.iter().copied().collect_with(&mut collector))
}

/// The `k` greatest of `items`, found by sorting.
fn expected(k: usize, items: &[i32]) -> Vec<i32> {
    let mut all = items.to_vec();
    all.sort();
    let n = all.len();
    all.split_off(n - k.min(n))
}

#[test]
fn keeps_three_greatest_of_six() {
    assert_eq!(top_k(3, &[5, 1, 4, 2, 8, 3]), vec![4, 5, 8]);
}

#[test]
fn empty_stream_gives_empty_result() {
    assert_eq!(top_k(3, &[]), Vec::<i32>::new());
}

#[test]
fn short_stream_is_kept_whole() {
    assert_eq!(top_k(2, &[7]), vec![7]);
}

#[test]
fn equal_items_are_all_kept() {
    assert_eq!(top_k(3, &[2, 2, 2, 2]), vec![2, 2, 2]);
}

#[test]
fn capacity_zero_keeps_nothing() {
    assert_eq!(top_k(0, &[1, 2, 3]), Vec::<i32>::new());
}

#[test]
fn equal_extrema_are_both_kept() {
    assert_eq!(top_k(4, &[-3, 0, -1, 9, 2, 9]), vec![0, 2, 9, 9]);
}

#[test]
fn direct_collect_keeps_three_greatest() {
    let mut collector = TopKCollector::new(3);
    for item in [5, 1, 4, 2, 8, 3] {
        collector.collect(item);
    }
    assert_eq!(sorted(collector.result()), vec![4, 5, 8]);
}

#[test]
fn result_size_is_min_of_capacity_and_stream_length() {
    let stream = [9, -4, 7, 7, 0, 3, 12, -8, 5, 5, 1];
    for k in 0..15 {
        for n in 0..=stream.len() {
            let out = top_k(k, &stream[..n]);
            assert_eq!(out.len(), k.min(n));
        }
    }
}

#[test]
fn result_holds_the_greatest_items() {
    let stream = [9, -4, 7, 7, 0, 3, 12, -8, 5, 5, 1, 12, 12, -4];
    for k in 0..17 {
        for n in 0..=stream.len() {
            assert_eq!(top_k(k, &stream[..n]), expected(k, &stream[..n]));
        }
    }
}

#[test]
fn order_of_the_stream_does_not_matter() {
    let stream = vec![3, 1, 4, 1, 5, 9, 2, 6, 5, 3, 5];
    let mut reversed = stream.clone();
    reversed.reverse();
    let mut rotated = stream.clone();
    rotated.rotate_left(4);
    let mut ascending = stream.clone();
    ascending.sort();
    for k in 0..13 {
        let want = top_k(k, &stream);
        assert_eq!(top_k(k, &reversed), want);
        assert_eq!(top_k(k, &rotated), want);
        assert_eq!(top_k(k, &ascending), want);
    }
}

#[test]
fn result_twice_gives_the_same_list() {
    let mut collector = TopKCollector::new(4);
    for item in [8, 3, 8, 1, 9, 2, 7] {
        collector.collect(item);
    }
    let first = collector.result();
    let second = collector.result();
    assert_eq!(first, second);
    assert_eq!(sorted(first), vec![7, 8, 8, 9]);
}

#[test]
fn result_does_not_drain_the_collector() {
    let mut collector = TopKCollector::new(2);
    collector.collect(10);
    collector.collect(30);
    assert_eq!(sorted(collector.result()), vec![10, 30]);
    collector.collect(20);
    assert_eq!(sorted(collector.result()), vec![20, 30]);
    collector.collect(5);
    assert_eq!(sorted(collector.result()), vec![20, 30]);
}

#[test]
fn two_passes_give_what_one_pass_gives() {
    let stream = [6, 2, 9, 4, 4, 11, -1, 7, 3];
    for k in 0..11 {
        for cut in 0..=stream.len() {
            let mut parts = TopKCollector::new(k);
            let probe = stream[..cut].iter().copied().collect_with(&mut parts);
            assert_eq!(sorted(probe), expected(k, &stream[..cut]));
            let in_parts = stream[cut..].iter().copied().collect_with(&mut parts);
            assert_eq!(sorted(in_parts), top_k(k, &stream));
        }
    }
}

#[test]
fn direct_and_driven_calls_interleave() {
    let mut collector = TopKCollector::new(3);
    collector.collect(4);
    let out = vec![1, 9].into_iter().collect_with(&mut collector);
    assert_eq!(sorted(out), vec![1, 4, 9]);
    collector.collect(6);
    let out = vec![5, 7].into_iter().collect_with(&mut collector);
    assert_eq!(sorted(out), vec![6, 7, 9]);
}

#[test]
fn works_on_items_that_are_not_copy() {
    let words = ["pear", "apple", "fig", "quince", "banana"];
    let mut collector = TopKCollector::new(2);
    let mut out = words.iter().map(|w| w.to_string()).collect_with(&mut collector);
    out.sort();
    assert_eq!(out, vec!["pear".to_string(), "quince".to_string()]);
}

#[test]
fn tuples_are_ordered_field_by_field() {
    let mut collector = TopKCollector::new(2);
    let out = vec![(1, 5), (2, 0), (1, 9), (2, 1)].into_iter().collect_with(&mut collector);
    let mut out = out;
    out.sort();
    assert_eq!(out, vec![(2, 0), (2, 1)]);
}

#[test]
fn clone_goes_on_independently() {
    let mut first = TopKCollector::new(2);
    first.collect(3);
    first.collect(8);
    let mut second = first.clone();
    second.collect(5);
    first.collect(1);
    assert_eq!(sorted(first.result()), vec![3, 8]);
    assert_eq!(sorted(second.result()), vec![5, 8]);
}

#[test]
fn large_stream_keeps_the_tail_of_the_order() {
    let mut stream: Vec<i32> = Vec::new();
    let mut x: i32 = 12345;
    for _ in 0..2000 {
        x = x.wrapping_mul(1103515245).wrapping_add(12345);
        stream.push((x >> 8) % 1000);
    }
    for k in [0usize, 1, 2, 10, 100, 1999, 2000, 2001, 5000] {
        assert_eq!(top_k(k, &stream), expected(k, &stream));
    }
}
