use button_store::resolve_partition;
use button_store::EventStore;
use button_store::StoreError;

/// A fresh database path under /tmp, so runs never see each other's data.
fn temp_db_path(tag: &str) -> String {
    let nanos = std::time::SystemTime::now()
        .duration_since(std::time::UNIX_EPOCH)
        .unwrap()
        .as_nanos();
    format!("/tmp/button_store_{}_{}.redb", tag, nanos)
}

const DAY: u64 = 86400;

#[test]
fn record_and_count_scenario() {
    let path = temp_db_path("scenario");
    let mut store = EventStore::open(&path).unwrap();
    let ack = store.record_event("alice", 1700000000, false).unwrap();
    assert_eq!(ack, "alice submitted for button 2023-11-14");
    store.record_event("bob", 1700000500, true).unwrap();
    assert_eq!(store.count_partition(1700000999).unwrap(), (1, 1));
    assert_eq!(store.count_partition(1700000999 + 2 * DAY).unwrap(), (0, 0));
}

#[test]
fn unwritten_partition_counts_zero() {
    let path = temp_db_path("unwritten");
    let store = EventStore::open(&path).unwrap();
    assert_eq!(store.count_partition(1700000000).unwrap(), (0, 0));
}

#[test]
fn double_record_is_idempotent() {
    let path = temp_db_path("idempotent");
    let mut store = EventStore::open(&path).unwrap();
    store.record_event("carol", 1700000000, true).unwrap();
    store.record_event("carol", 1700000000, true).unwrap();
    assert_eq!(store.count_partition(1700000000).unwrap(), (0, 1));
}

#[test]
fn last_write_wins() {
    let path = temp_db_path("lastwrite");
    let mut store = EventStore::open(&path).unwrap();
    store.record_event("dave", 1700000000, false).unwrap();
    store.record_event("dave", 1700000000, true).unwrap();
    assert_eq!(store.count_partition(1700000000).unwrap(), (0, 1));
}

#[test]
fn count_three_opens_two_presses() {
    let path = temp_db_path("counts");
    let mut store = EventStore::open(&path).unwrap();
    for id in ["a", "b", "c"] {
        store.record_event(id, 1700000000, false).unwrap();
    }
    for id in ["d", "e"] {
        store.record_event(id, 1700000000, true).unwrap();
    }
    assert_eq!(store.count_partition(1700000000).unwrap(), (3, 2));
}

#[test]
fn partitions_are_isolated() {
    let path = temp_db_path("isolated");
    let mut store = EventStore::open(&path).unwrap();
    store.record_event("erin", 1700000000, true).unwrap();
    assert_eq!(store.count_partition(1700000000 + DAY).unwrap(), (0, 0));
    store.record_event("frank", 1700000000 + DAY, false).unwrap();
    assert_eq!(store.count_partition(1700000000).unwrap(), (0, 1));
    assert_eq!(store.count_partition(1700000000 + DAY).unwrap(), (1, 0));
}

#[test]
fn distinct_clients_no_lost_update() {
    let path = temp_db_path("nolost");
    let mut store = EventStore::open(&path).unwrap();
    store.record_event("gwen", 1700000000, true).unwrap();
    store.record_event("hugo", 1700000000, true).unwrap();
    assert_eq!(store.count_partition(1700000000).unwrap(), (0, 2));
}

#[test]
fn records_persist_across_reopen() {
    let path = temp_db_path("reopen");
    {
        let mut store = EventStore::open(&path).unwrap();
        store.record_event("ivy", 1700000000, false).unwrap();
    }
    let store = EventStore::open(&path).unwrap();
    assert_eq!(store.count_partition(1700000000).unwrap(), (1, 0));
}

#[test]
fn record_in_resolved_partition() {
    let path = temp_db_path("recordin");
    let mut store = EventStore::open(&path).unwrap();
    let key = resolve_partition(1700000000);
    store.record_in(&key, "judy", true).unwrap();
    assert_eq!(store.count_in(&key).unwrap(), (0, 1));
    // the same key resolved from another second of the day sees the record
    let key_later = resolve_partition(1700000500);
    assert_eq!(store.count_in(&key_later).unwrap(), (0, 1));
}

#[test]
fn open_on_bad_path_is_unavailable() {
    // A directory cannot be opened as a database file.
    let result = EventStore::open("/tmp");
    assert!(matches!(result, Err(StoreError::StoreUnavailable)));
    assert_eq!(StoreError::StoreUnavailable.message(), "store unavailable");
}
