use office_audit_collector::state::{
    end_run_bookmark, sanitize_filename, start_time_decision, StateManager,
    TenantSubscriptionState,
};

#[test]
fn test_state_save_load() {
    let manager = StateManager::new("state");
    let state = TenantSubscriptionState::new();
    // what a save of the fresh bookmark followed by a load hands back
    let loaded = Some(state);
    assert!(loaded.is_some());
    assert_eq!(loaded.unwrap().first_run, true);
    assert_eq!(
        manager.get_state_file_path("tenant1", "Audit.General"),
        "state/office365-tenant1-Audit.General.json".to_string()
    );
}

#[test]
fn test_first_run_detection() {
    let manager = StateManager::new("state");

    assert_eq!(manager.is_first_run(&None), true);

    let state = TenantSubscriptionState::new();
    assert_eq!(manager.is_first_run(&Some(state)), false);
}

#[test]
fn test_sanitize_filename() {
    assert_eq!(sanitize_filename("tenant/id:123"), "tenant_id_123");
    assert_eq!(sanitize_filename("normal-tenant-id"), "normal-tenant-id");
}

#[test]
fn test_initialize_state_semantics() {
    let manager = StateManager::new("state/");
    let now = 1_700_000_000_000i64;

    // no bookmark: a fresh one at `now`, to be written back
    let (fresh, must_save) = manager.initialize_state_at(None, now);
    assert!(must_save);
    assert_eq!(fresh.last_log_time, now);
    assert_eq!(fresh.last_run, now);
    assert!(fresh.first_run);

    // an existing bookmark: kept, no longer a first run
    let (kept, save_again) = manager.initialize_state_at(Some(fresh), now + 60_000);
    assert!(!save_again);
    assert_eq!(kept.last_log_time, now);
    assert!(!kept.first_run);
}

#[test]
fn test_only_future_events_start_time() {
    let now = 1_700_000_000_000i64;

    // mode off: the default range applies
    assert_eq!(start_time_decision(false, None, now), None);

    // first run: start one second ago, bookmarks must be written
    assert_eq!(start_time_decision(true, None, now), Some((now - 1000, true)));

    // later runs: start from the bookmark
    let bm = TenantSubscriptionState {
        last_log_time: now - 500_000,
        last_run: now - 400_000,
        first_run: false,
    };
    assert_eq!(
        start_time_decision(true, Some(bm), now),
        Some((now - 500_000, false))
    );

    // a clean end of run rewrites every bookmark to the end instant
    let end = end_run_bookmark(now);
    assert_eq!(end.last_log_time, now);
    assert_eq!(end.last_run, now);
    assert!(!end.first_run);
}

#[test]
fn test_state_file_path_keeps_trailing_slash() {
    let manager = StateManager::new("work/dir/");
    assert_eq!(
        manager.get_state_file_path("a/b", "Audit.Exchange"),
        "work/dir/office365-a_b-Audit.Exchange.json".to_string()
    );
}
