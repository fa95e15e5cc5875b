use httpkit::session::SessionTable;

#[test]
fn create_stores_initialized_session() {
    let mut table = SessionTable::new();
    table.create("one".to_string(), 50);

    assert_eq!(table.len(), 1);
    let session = table.get("one").expect("created session");
    assert_eq!(session.last_accessed, 50);
    assert_eq!(session.data.get("init").unwrap(), "true");
}

#[test]
fn touch_refreshes_only_known_sessions() {
    let mut table = SessionTable::new();
    table.create("one".to_string(), 50);

    table.touch("one", 200);
    assert_eq!(table.get("one").unwrap().last_accessed, 200);

    table.touch("two", 300);
    assert_eq!(table.len(), 1);
    assert!(table.get("two").is_none());
}

#[test]
fn sweep_evicts_idle_sessions_and_keeps_fresh_ones() {
    let mut table = SessionTable::new();
    table.create("stale".to_string(), 0);
    table.create("fresh".to_string(), 2000);

    // Exactly at the window's edge the session survives; one second past
    // it does not.
    table.sweep(901);
    assert!(table.get("stale").is_none());
    assert!(table.get("fresh").is_some());
    assert_eq!(table.len(), 1);
}

#[test]
fn sweep_at_the_window_edge_keeps_the_session() {
    let mut table = SessionTable::new();
    table.create("edge".to_string(), 0);
    table.sweep(900);
    assert!(table.get("edge").is_some());
}

#[test]
fn creating_twice_overwrites_the_session() {
    let mut table = SessionTable::new();
    table.create("one".to_string(), 10);
    table.create("one".to_string(), 20);

    assert_eq!(table.len(), 1);
    assert_eq!(table.get("one").unwrap().last_accessed, 20);
}
