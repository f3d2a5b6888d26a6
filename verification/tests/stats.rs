use loglumen::event::Event;
use loglumen::stats::compute_dashboard_stats;
use loglumen::store::EventStore;

fn mk(category: &str, event_type: &str, time: &str, host: &str, ipv4: &str, severity: &str) -> Event {
    Event {
        schema_version: 1,
        category: category.to_string(),
        event_type: event_type.to_string(),
        time: time.to_string(),
        host: host.to_string(),
        host_ipv4: ipv4.to_string(),
        os: "linux".to_string(),
        source: "agent".to_string(),
        severity: severity.to_string(),
        message: "m".to_string(),
        data: "{}".to_string(),
    }
}

fn count_of(pairs: &Vec<(String, usize)>, key: &str) -> Option<usize> {
    for (k, v) in pairs.iter() {
        if k == key {
            return Some(*v);
        }
    }
    None
}

#[test]
fn empty_store_stats() {
    let store = EventStore::new();
    let stats = compute_dashboard_stats(store.snapshot());
    assert_eq!(stats.total_events, 0);
    assert!(stats.categories.is_empty());
    assert!(stats.nodes.is_empty());
    assert!(!stats.last_updated.is_empty());
}

#[test]
fn example_scenario() {
    let mut store = EventStore::new();
    store.append(&vec![
        mk("net", "conn", "T1", "h1", "10.0.0.1", "low"),
        mk("net", "conn", "T2", "h2", "10.0.0.2", "high"),
    ]);
    let stats = compute_dashboard_stats(store.snapshot());
    assert_eq!(stats.total_events, 2);
    assert_eq!(stats.categories.len(), 1);
    let cat = &stats.categories[0];
    assert_eq!(cat.category, "net");
    assert_eq!(cat.total_count, 2);
    assert_eq!(count_of(&cat.event_types, "conn"), Some(2));
    assert_eq!(cat.event_types.len(), 1);
    assert_eq!(count_of(&cat.severity_counts, "low"), Some(1));
    assert_eq!(count_of(&cat.severity_counts, "high"), Some(1));
    assert_eq!(cat.severity_counts.len(), 2);
    assert_eq!(cat.recent_events.len(), 2);
    // latest-first
    assert_eq!(cat.recent_events[0].time, "T2");
    assert_eq!(cat.recent_events[1].time, "T1");
    // two nodes with total 1 each, tie broken ascending by host
    assert_eq!(stats.nodes.len(), 2);
    assert_eq!(stats.nodes[0].host, "h1");
    assert_eq!(stats.nodes[1].host, "h2");
    assert_eq!(stats.nodes[0].total_events, 1);
    assert_eq!(stats.nodes[1].total_events, 1);
    assert_eq!(stats.nodes[0].last_event_time.as_deref(), Some("T1"));
    assert_eq!(stats.nodes[1].last_event_time.as_deref(), Some("T2"));
}

#[test]
fn filter_by_host_h2_after_example() {
    let mut store = EventStore::new();
    store.append(&vec![
        mk("net", "conn", "T1", "h1", "10.0.0.1", "low"),
        mk("net", "conn", "T2", "h2", "10.0.0.2", "high"),
    ]);
    let got = store.filter_by_host(&"h2".to_string());
    assert_eq!(got.len(), 1);
    assert_eq!(got[0].host, "h2");
    assert_eq!(got[0].host_ipv4, "10.0.0.2");
    assert_eq!(got[0].time, "T2");
    assert_eq!(got[0].severity, "high");
}

#[test]
fn category_totals_sum_to_total_events() {
    let mut store = EventStore::new();
    store.append(&vec![
        mk("net", "a", "T1", "h1", "10.0.0.1", "low"),
        mk("proc", "b", "T2", "h1", "10.0.0.1", "low"),
        mk("net", "c", "T3", "h2", "10.0.0.2", "high"),
        mk("disk", "d", "T4", "h2", "10.0.0.2", "low"),
        mk("net", "e", "T5", "h3", "10.0.0.3", "mid"),
    ]);
    let stats = compute_dashboard_stats(store.snapshot());
    assert_eq!(stats.total_events, 5);
    let sum: usize = stats.categories.iter().map(|c| c.total_count).sum();
    assert_eq!(sum, stats.total_events);
}

#[test]
fn node_totals_sum_to_total_events() {
    let mut store = EventStore::new();
    store.append(&vec![
        mk("net", "a", "T1", "h1", "10.0.0.1", "low"),
        mk("proc", "b", "T2", "h1", "10.0.0.1", "low"),
        mk("net", "c", "T3", "h2", "10.0.0.2", "high"),
        mk("net", "d", "T4", "h1", "10.0.0.9", "low"),
    ]);
    let stats = compute_dashboard_stats(store.snapshot());
    assert_eq!(stats.total_events, 4);
    let sum: usize = stats.nodes.iter().map(|n| n.total_events).sum();
    assert_eq!(sum, stats.total_events);
    // h1 appears as two distinct nodes, one per ipv4
    assert_eq!(stats.nodes.len(), 3);
}

#[test]
fn recent_events_bounded_to_ten_latest_first() {
    let mut store = EventStore::new();
    let mut batch = Vec::new();
    for i in 0..12 {
        batch.push(mk("net", &format!("e{}", i), &format!("T{}", i), "h1", "10.0.0.1", "low"));
    }
    store.append(&batch);
    let stats = compute_dashboard_stats(store.snapshot());
    assert_eq!(stats.categories.len(), 1);
    let cat = &stats.categories[0];
    assert_eq!(cat.total_count, 12);
    assert_eq!(cat.recent_events.len(), 10);
    // the most recently appended event comes first
    assert_eq!(cat.recent_events[0].event_type, "e11");
    assert_eq!(cat.recent_events[9].event_type, "e2");
}

#[test]
fn categories_sorted_ascending_no_duplicates() {
    let mut store = EventStore::new();
    store.append(&vec![
        mk("zeta", "a", "T1", "h1", "10.0.0.1", "low"),
        mk("alpha", "b", "T2", "h1", "10.0.0.1", "low"),
        mk("mid", "c", "T3", "h1", "10.0.0.1", "low"),
        mk("alpha", "d", "T4", "h1", "10.0.0.1", "low"),
    ]);
    let stats = compute_dashboard_stats(store.snapshot());
    let names: Vec<&str> = stats.categories.iter().map(|c| c.category.as_str()).collect();
    assert_eq!(names, vec!["alpha", "mid", "zeta"]);
}

#[test]
fn nodes_sorted_by_total_desc_then_host_asc() {
    let mut store = EventStore::new();
    store.append(&vec![
        mk("net", "a", "T1", "bb", "10.0.0.2", "low"),
        mk("net", "b", "T2", "aa", "10.0.0.1", "low"),
        mk("net", "c", "T3", "cc", "10.0.0.3", "low"),
        mk("net", "d", "T4", "cc", "10.0.0.3", "low"),
    ]);
    let stats = compute_dashboard_stats(store.snapshot());
    let order: Vec<(&str, usize)> =
        stats.nodes.iter().map(|n| (n.host.as_str(), n.total_events)).collect();
    assert_eq!(order, vec![("cc", 2), ("aa", 1), ("bb", 1)]);
}

#[test]
fn node_last_event_time_is_positional() {
    // the "most recent" time is the last-appended event's time field, even
    // when an earlier-appended event carries a later-looking timestamp
    let mut store = EventStore::new();
    store.append(&vec![
        mk("net", "a", "T9", "h1", "10.0.0.1", "low"),
        mk("net", "b", "T1", "h1", "10.0.0.1", "low"),
    ]);
    let stats = compute_dashboard_stats(store.snapshot());
    assert_eq!(stats.nodes.len(), 1);
    assert_eq!(stats.nodes[0].last_event_time.as_deref(), Some("T1"));
}

#[test]
fn single_event_group_has_full_stats() {
    let mut store = EventStore::new();
    store.append(&vec![mk("net", "conn", "T1", "h1", "10.0.0.1", "low")]);
    let stats = compute_dashboard_stats(store.snapshot());
    assert_eq!(stats.categories.len(), 1);
    assert_eq!(stats.categories[0].total_count, 1);
    assert_eq!(stats.categories[0].recent_events.len(), 1);
    assert_eq!(count_of(&stats.categories[0].event_types, "conn"), Some(1));
    assert_eq!(stats.nodes.len(), 1);
    assert_eq!(stats.nodes[0].total_events, 1);
    assert_eq!(count_of(&stats.nodes[0].categories, "net"), Some(1));
    assert_eq!(count_of(&stats.nodes[0].severity_counts, "low"), Some(1));
}

#[test]
fn node_category_and_severity_maps() {
    let mut store = EventStore::new();
    store.append(&vec![
        mk("net", "a", "T1", "h1", "10.0.0.1", "low"),
        mk("proc", "b", "T2", "h1", "10.0.0.1", "high"),
        mk("net", "c", "T3", "h1", "10.0.0.1", "low"),
        mk("net", "d", "T4", "h2", "10.0.0.2", "low"),
    ]);
    let stats = compute_dashboard_stats(store.snapshot());
    let h1 = stats.nodes.iter().find(|n| n.host == "h1").unwrap();
    assert_eq!(h1.total_events, 3);
    assert_eq!(count_of(&h1.categories, "net"), Some(2));
    assert_eq!(count_of(&h1.categories, "proc"), Some(1));
    assert_eq!(count_of(&h1.severity_counts, "low"), Some(2));
    assert_eq!(count_of(&h1.severity_counts, "high"), Some(1));
    assert_eq!(count_of(&h1.categories, "disk"), None);
}
