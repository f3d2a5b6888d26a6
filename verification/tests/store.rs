use loglumen::event::Event;
use loglumen::store::EventStore;

fn mk(category: &str, event_type: &str, time: &str, host: &str, ipv4: &str, severity: &str) -> Event {
    Event {
        schema_version: 1,
        category: category.to_string(),
        event_type: event_type.to_string(),
        time: time.to_string(),
        host: host.to_string(),
        host_ipv4: ipv4.to_string(),
        os: "linux".to_string(),
        source: "agent".to_string(),
        severity: severity.to_string(),
        message: "m".to_string(),
        data: "{}".to_string(),
    }
}

#[test]
fn empty_store_is_empty() {
    let store = EventStore::new();
    assert_eq!(store.len(), 0);
    assert!(store.snapshot().is_empty());
}

#[test]
fn append_count_and_order() {
    let mut store = EventStore::new();
    let batch1 = vec![
        mk("net", "conn", "T1", "h1", "10.0.0.1", "low"),
        mk("proc", "spawn", "T2", "h2", "10.0.0.2", "high"),
    ];
    let batch2 = vec![mk("net", "drop", "T3", "h1", "10.0.0.1", "low")];
    let n1 = store.append(&batch1);
    let n2 = store.append(&batch2);
    assert_eq!(n1, 2);
    assert_eq!(n2, 1);
    assert_eq!(store.len(), 3);
    let all = store.snapshot();
    assert_eq!(all.len(), 3);
    assert_eq!(all[0].event_type, "conn");
    assert_eq!(all[1].event_type, "spawn");
    assert_eq!(all[2].event_type, "drop");
}

#[test]
fn append_empty_batch() {
    let mut store = EventStore::new();
    let n = store.append(&Vec::new());
    assert_eq!(n, 0);
    assert_eq!(store.len(), 0);
}

#[test]
fn duplicates_are_kept() {
    let mut store = EventStore::new();
    let e = mk("net", "conn", "T1", "h1", "10.0.0.1", "low");
    store.append(&vec![e.clone(), e.clone()]);
    assert_eq!(store.len(), 2);
}

#[test]
fn filter_by_host_exact_subset_reversed() {
    let mut store = EventStore::new();
    store.append(&vec![
        mk("net", "a", "T1", "h1", "10.0.0.1", "low"),
        mk("net", "b", "T2", "h2", "10.0.0.2", "low"),
        mk("net", "c", "T3", "h1", "10.0.0.1", "high"),
        mk("net", "d", "T4", "h10", "10.0.0.3", "low"),
    ]);
    let got = store.filter_by_host(&"h1".to_string());
    assert_eq!(got.len(), 2);
    // latest-first: the later append comes first
    assert_eq!(got[0].event_type, "c");
    assert_eq!(got[1].event_type, "a");
    // all other fields carried through unchanged
    assert_eq!(got[0].severity, "high");
    assert_eq!(got[0].time, "T3");
    assert_eq!(got[0].host_ipv4, "10.0.0.1");
    assert_eq!(got[0].data, "{}");
}

#[test]
fn filter_matches_host_not_ipv4() {
    let mut store = EventStore::new();
    store.append(&vec![mk("net", "a", "T1", "h1", "h2", "low")]);
    // the ipv4 field holding the string "h2" must not match a host query
    let got = store.filter_by_host(&"h2".to_string());
    assert_eq!(got.len(), 0);
}

#[test]
fn filter_unknown_host_is_empty() {
    let mut store = EventStore::new();
    store.append(&vec![mk("net", "a", "T1", "h1", "10.0.0.1", "low")]);
    let got = store.filter_by_host(&"absent".to_string());
    assert!(got.is_empty());
}

#[test]
fn filter_is_case_sensitive() {
    let mut store = EventStore::new();
    store.append(&vec![mk("net", "a", "T1", "Host", "10.0.0.1", "low")]);
    assert_eq!(store.filter_by_host(&"host".to_string()).len(), 0);
    assert_eq!(store.filter_by_host(&"Host".to_string()).len(), 1);
}
