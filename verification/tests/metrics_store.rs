use terminox::metrics_store::{MetricsSample, MetricsStore, RING_SIZE};

fn sample(t: u64) -> MetricsSample {
    MetricsSample {
        timestamp_ms: t,
        cpu_percent_bits: Some(12.5f64.to_bits()),
        ram_percent_bits: None,
        disk_percent_bits: Some(0.0f64.to_bits()),
    }
}

#[test]
fn unknown_server_has_empty_history() {
    let s = MetricsStore::new();
    assert!(s.history("srv").is_empty());
}

#[test]
fn history_keeps_last_sixty_in_order() {
    let mut s = MetricsStore::new();
    for t in 0..(RING_SIZE as u64 + 5) {
        s.push("srv", sample(t));
    }
    let h = s.history("srv");
    assert_eq!(h.len(), RING_SIZE);
    assert_eq!(h[0].timestamp_ms, 5);
    assert_eq!(h[RING_SIZE - 1].timestamp_ms, RING_SIZE as u64 + 4);
    assert_eq!(f64::from_bits(h[0].cpu_percent_bits.unwrap()), 12.5);
}

#[test]
fn servers_are_isolated() {
    let mut s = MetricsStore::new();
    s.push("a", sample(1));
    s.push("b", sample(2));
    s.push("a", sample(3));
    assert_eq!(s.history("a").iter().map(|x| x.timestamp_ms).collect::<Vec<_>>(), vec![1, 3]);
    assert_eq!(s.history("b").iter().map(|x| x.timestamp_ms).collect::<Vec<_>>(), vec![2]);
}
