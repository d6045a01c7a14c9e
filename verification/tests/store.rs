use awair_exporter::store::{MetricEntry, MetricStore};

fn entry(metric: &str, source: &str, value: u64) -> MetricEntry {
    MetricEntry { metric: metric.to_string(), source: source.to_string(), value }
}

#[test]
fn new_store_is_empty() {
    let store = MetricStore::new();
    assert_eq!(store.len(), 0);
    assert_eq!(store.snapshot(), vec![]);
    assert_eq!(store.get("score", "a"), None);
}

#[test]
fn set_then_get() {
    let mut store = MetricStore::new();
    store.set("score", "a", 80.0f64.to_bits());
    assert_eq!(store.get("score", "a"), Some(80.0f64.to_bits()));
    assert_eq!(store.len(), 1);
}

#[test]
fn second_write_replaces_the_first() {
    let mut store = MetricStore::new();
    store.set("temp", "a", 21.5f64.to_bits());
    store.set("temp", "a", 22.0f64.to_bits());
    assert_eq!(store.get("temp", "a"), Some(22.0f64.to_bits()));
    assert_eq!(store.snapshot(), vec![entry("temp", "a", 22.0f64.to_bits())]);
    assert_eq!(store.len(), 1);
}

#[test]
fn overwrite_leaves_other_keys_alone() {
    let mut store = MetricStore::new();
    store.set("temp", "a", 1);
    store.set("temp", "b", 2);
    store.set("score", "a", 3);
    store.set("temp", "a", 4);
    assert_eq!(store.get("temp", "a"), Some(4));
    assert_eq!(store.get("temp", "b"), Some(2));
    assert_eq!(store.get("score", "a"), Some(3));
    assert_eq!(store.len(), 3);
}

#[test]
fn absent_is_not_zero() {
    let mut store = MetricStore::new();
    store.set("co2", "a", 0.0f64.to_bits());
    assert_eq!(store.get("co2", "a"), Some(0));
    assert_eq!(store.get("co2", "b"), None);
    assert_eq!(store.get("voc", "a"), None);
}

#[test]
fn metric_and_source_are_told_apart() {
    let mut store = MetricStore::new();
    store.set("ab", "c", 1);
    store.set("a", "bc", 2);
    assert_eq!(store.get("ab", "c"), Some(1));
    assert_eq!(store.get("a", "bc"), Some(2));
    assert_eq!(store.get("abc", ""), None);
    assert_eq!(store.len(), 2);
}

#[test]
fn snapshot_lists_by_metric_then_source() {
    let mut store = MetricStore::new();
    store.set("temp", "b", 1);
    store.set("score", "b", 2);
    store.set("temp", "a", 3);
    store.set("voc", "a", 4);
    store.set("score", "a", 5);
    assert_eq!(
        store.snapshot(),
        vec![
            entry("score", "a", 5),
            entry("score", "b", 2),
            entry("temp", "a", 3),
            entry("temp", "b", 1),
            entry("voc", "a", 4),
        ]
    );
}

#[test]
fn snapshot_does_not_depend_on_the_order_of_writes() {
    let writes = [("temp", "b", 1u64), ("score", "b", 2), ("temp", "a", 3), ("co2", "c", 4)];
    let mut forward = MetricStore::new();
    for (metric, source, value) in writes {
        forward.set(metric, source, value);
    }
    let mut backward = MetricStore::new();
    for (metric, source, value) in writes.iter().rev() {
        backward.set(metric, source, *value);
    }
    assert_eq!(forward.snapshot(), backward.snapshot());
}

#[test]
fn snapshot_twice_is_the_same() {
    let mut store = MetricStore::new();
    store.set("temp", "a", 21.5f64.to_bits());
    store.set("score", "a", 80.0f64.to_bits());
    let first = store.snapshot();
    let second = store.snapshot();
    assert_eq!(first, second);
    assert_eq!(store.len(), 2);
}

#[test]
fn snapshot_is_a_copy() {
    let mut store = MetricStore::new();
    store.set("temp", "a", 1);
    let before = store.snapshot();
    store.set("temp", "a", 2);
    store.set("temp", "b", 3);
    assert_eq!(before, vec![entry("temp", "a", 1)]);
    assert_eq!(store.snapshot(), vec![entry("temp", "a", 2), entry("temp", "b", 3)]);
}

#[test]
fn values_keep_every_bit() {
    let mut store = MetricStore::new();
    let values = [
        0.0f64,
        -0.0,
        21.5,
        f64::MAX,
        f64::MIN_POSITIVE,
        f64::INFINITY,
        f64::NEG_INFINITY,
        f64::NAN,
    ];
    for (i, value) in values.iter().enumerate() {
        store.set("temp", &format!("s{}", i), value.to_bits());
    }
    for (i, value) in values.iter().enumerate() {
        assert_eq!(store.get("temp", &format!("s{}", i)), Some(value.to_bits()));
    }
    assert_eq!(store.get("temp", "s1"), Some(1u64 << 63));
}

#[test]
fn many_sources_stay_sorted() {
    let mut store = MetricStore::new();
    for i in (0..50u64).rev() {
        store.set("score", &format!("http://10.0.0.{}", i), i);
        store.set("temp", &format!("http://10.0.0.{}", i), i + 100);
    }
    let list = store.snapshot();
    assert_eq!(list.len(), 100);
    for pair in list.windows(2) {
        let a = (pair[0].metric.as_str(), pair[0].source.as_str());
        let b = (pair[1].metric.as_str(), pair[1].source.as_str());
        assert!(a < b);
    }
    assert_eq!(store.get("temp", "http://10.0.0.7"), Some(107));
}

#[test]
fn interleaved_writes_and_snapshots_show_written_values_only() {
    let mut store = MetricStore::new();
    let sources = ["a", "b", "c"];
    let metrics = ["score", "temp"];
    for round in 0..200u64 {
        let source = sources[(round % 3) as usize];
        let metric = metrics[(round % 2) as usize];
        store.set(metric, source, round);
        for e in store.snapshot() {
            assert!(e.value <= round);
            assert_eq!(metrics[(e.value % 2) as usize], e.metric);
            assert_eq!(sources[(e.value % 3) as usize], e.source);
        }
    }
    assert_eq!(store.len(), 6);
}

#[test]
fn default_store_is_empty() {
    let store = MetricStore::default();
    assert_eq!(store.len(), 0);
    assert_eq!(store.snapshot(), vec![]);
}
