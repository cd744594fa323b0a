use marline::index::metrics::{MetricStorage, MetricsMap};

#[test]
fn set_and_get_metric() {
    let mut m = MetricsMap::new();
    assert_eq!(m.set_metric(&42, 5), None);
    assert_eq!(m.get_metric(&42), Some(5));
}

#[test]
fn get_nonexistent_metric() {
    let m = MetricsMap::new();
    assert_eq!(m.get_metric(&99), None);
}

#[test]
fn set_overwrites_existing() {
    let mut m = MetricsMap::new();
    m.set_metric(&1, 3);
    assert_eq!(m.set_metric(&1, 7), Some(3));
    assert_eq!(m.get_metric(&1), Some(7));
}

#[test]
fn remove_returns_previous_value() {
    let mut m = MetricsMap::new();
    m.set_metric(&1, 9);
    assert_eq!(m.remove_metric(&1), Some(9));
    assert_eq!(m.get_metric(&1), None);
}

#[test]
fn clear_all_removes_everything() {
    let mut m = MetricsMap::new();
    m.set_metric(&1, 1);
    m.set_metric(&2, 2);
    m.clear_all();
    assert_eq!(m.get_metric(&1), None);
    assert_eq!(m.get_metric(&2), None);
}

#[test]
fn update_and_clean_removes_entries_matching_cleanup() {
    let mut m = MetricsMap::new();
    m.set_metric(&1, 1);
    m.set_metric(&2, 5);
    m.set_metric(&3, 10);

    // Increment all metrics by 1, remove those > 7
    m.update_and_clean(|m: u8| m + 1, |m: u8| m > 7);

    assert_eq!(m.get_metric(&1), Some(2));
    assert_eq!(m.get_metric(&2), Some(6));
    assert_eq!(m.get_metric(&3), None);
}

#[test]
fn update_and_clean_on_empty_map_keeps_it_empty() {
    let mut m: MetricsMap<u64> = MetricsMap::new();
    m.update_and_clean(|m: u8| m, |_m: u8| true);
    assert_eq!(m.get_metric(&0), None);
}
