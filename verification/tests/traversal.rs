use topk::{CollectWith, Collector};

/// Records every call made to it.
struct Recorder {
    calls: Vec<String>,
}

impl Collector<i32, Vec<String>> for Recorder {
    fn collect(&mut self, item: i32) {
        self.calls.push(format!("collect {}", item));
    }

    fn result(&mut self) -> Vec<String> {
        self.calls.push("result".to_string());
        self.calls.clone()
    }
}

/// Adds up what it absorbs.
struct Sum {
    total: i64,
}

impl Collector<i64, i64> for Sum {
    fn collect(&mut self, item: i64) {
        self.total += item;
    }

    fn result(&mut self) -> i64 {
        self.total
    }
}

#[test]
fn every_item_is_collected_once_in_order_then_result_once() {
    let mut recorder = Recorder { calls: Vec::new() };
    let out = vec![3, 1, 2, 1].into_iter().collect_with(&mut recorder);
    let want: Vec<String> = ["collect 3", "collect 1", "collect 2", "collect 1", "result"]
        .iter()
        .map(|s| s.to_string())
        .collect();
    assert_eq!(out, want);
    assert_eq!(recorder.calls, want);
}

#[test]
fn empty_producer_asks_for_the_result_only() {
    let mut recorder = Recorder { calls: Vec::new() };
    let out = Vec::<i32>::new().into_iter().collect_with(&mut recorder);
    assert_eq!(out, vec!["result".to_string()]);
}

#[test]
fn producer_is_driven_to_exhaustion() {
    let mut sum = Sum { total: 0 };
    assert_eq!((1..=100).collect_with(&mut sum), 5050);
    assert_eq!((1..=10).collect_with(&mut sum), 5105);
}

#[test]
fn adaptors_are_producers_too() {
    let mut sum = Sum { total: 0 };
    let out = (1..=10).filter(|n| n % 2 == 0).map(|n| n * n).collect_with(&mut sum);
    assert_eq!(out, 4 + 16 + 36 + 64 + 100);
}
