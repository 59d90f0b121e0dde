use matmul_pool::Metrics;

fn count(m: &Metrics, key: &str) -> Option<i64> {
    m.snapshot().into_iter().find(|(k, _)| k == key).map(|(_, v)| v)
}

#[test]
fn new_metrics_are_empty() {
    assert!(Metrics::new().snapshot().is_empty());
}

#[test]
fn first_increment_counts_one() {
    let mut m = Metrics::new();
    m.inc("req.page.1");
    assert_eq!(count(&m, "req.page.1"), Some(1));
    m.inc("req.page.1");
    m.inc("req.page.1");
    assert_eq!(count(&m, "req.page.1"), Some(3));
}

#[test]
fn decrement_counts_down() {
    let mut m = Metrics::new();
    m.dec("conn");
    assert_eq!(count(&m, "conn"), Some(-1));
    m.dec("conn");
    assert_eq!(count(&m, "conn"), Some(-2));
    m.inc("conn");
    assert_eq!(count(&m, "conn"), Some(-1));
}

#[test]
fn counters_are_independent() {
    let mut m = Metrics::new();
    m.inc("a");
    m.inc("b");
    m.inc("a");
    let mut snap = m.snapshot();
    snap.sort();
    assert_eq!(snap, vec![("a".to_string(), 2), ("b".to_string(), 1)]);
}

#[test]
fn count_reads_one_counter() {
    let mut m = Metrics::new();
    assert_eq!(m.count("x"), None);
    m.inc("x");
    m.inc("x");
    assert_eq!(m.count("x"), Some(2));
    assert_eq!(m.count("y"), None);
}
