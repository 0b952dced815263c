use andpull::state::resume::{StateManager, TransferState, MAX_RETRIES};

#[test]
fn new_manager_starts_empty() {
    let m = StateManager::new("/sdcard/DCIM", "/backup");
    assert_eq!(m.stats(), (0, 0, 0));
    assert_eq!(m.source(), "/sdcard/DCIM");
    assert_eq!(m.destination(), "/backup");
    assert!(!m.is_completed("/sdcard/DCIM/a.jpg"));
    assert!(m.should_retry("/sdcard/DCIM/a.jpg"));
}

#[test]
fn state_file_joins_destination() {
    assert_eq!(
        StateManager::new("s", "/backup").state_file(),
        "/backup/.andpull-state.json"
    );
    assert_eq!(
        StateManager::new("s", "/backup/").state_file(),
        "/backup/.andpull-state.json"
    );
    assert_eq!(StateManager::new("s", "").state_file(), ".andpull-state.json");
}

#[test]
fn marked_file_counts_as_completed() {
    let mut m = StateManager::new("s", "d");
    m.mark_file_completed("/sdcard/a.jpg", 10, 5, Some("abc".to_string()));
    assert!(m.is_completed("/sdcard/a.jpg"));
    assert!(!m.is_completed("/sdcard/b.jpg"));
    assert_eq!(m.stats(), (1, 0, 0));
    let rec = &m.state().completed_files[0];
    assert_eq!(rec.path, "/sdcard/a.jpg");
    assert_eq!(rec.size, 10);
    assert_eq!(rec.mtime, 5);
    assert_eq!(rec.hash.as_deref(), Some("abc"));
}

#[test]
fn retries_stop_after_three_failures() {
    let mut m = StateManager::new("s", "d");
    let p = "/sdcard/bad.jpg";
    assert!(m.should_retry(p));
    m.mark_file_failed(p, "e1");
    assert!(m.should_retry(p));
    m.mark_file_failed(p, "e2");
    assert!(m.should_retry(p));
    m.mark_file_failed(p, "e3");
    assert!(!m.should_retry(p));
    assert_eq!(m.failed_attempts(p), Some(MAX_RETRIES));
    assert_eq!(m.state().failed_files.len(), 1);
    assert_eq!(m.state().failed_files[0].error, "e3");
    assert!(m.should_retry("/sdcard/other.jpg"));
}

#[test]
fn completion_clears_failures() {
    let mut m = StateManager::new("s", "d");
    let p = "/sdcard/flaky.jpg";
    m.mark_file_failed(p, "e1");
    m.mark_file_failed("/sdcard/other.jpg", "x");
    m.mark_file_failed(p, "e2");
    m.mark_file_failed(p, "e3");
    assert!(!m.should_retry(p));
    m.mark_file_completed(p, 1, 1, None);
    assert!(m.should_retry(p));
    assert_eq!(m.failed_attempts(p), None);
    assert_eq!(m.stats(), (1, 1, 0));
}

#[test]
fn sync_record_makes_same_size_and_mtime_unchanged() {
    let mut m = StateManager::new("s", "d");
    let p = "/sdcard/v.mp4";
    assert!(!m.is_unchanged(p, 100, 10));
    m.update_sync_record(p, 100, "/local/v.mp4", Some("h1".to_string()), 10);
    assert!(m.is_unchanged(p, 100, 10));
    assert!(!m.is_unchanged(p, 101, 10));
    assert!(!m.is_unchanged(p, 100, 11));
    assert_eq!(m.get_sync_hash(p), Some("h1"));
    m.update_sync_record(p, 200, "/local/v2.mp4", None, 20);
    assert!(m.is_unchanged(p, 200, 20));
    assert!(!m.is_unchanged(p, 100, 10));
    assert_eq!(m.get_sync_hash(p), None);
    assert_eq!(m.state().synced_files.len(), 1);
    assert_eq!(m.state().synced_files[0].local_path, "/local/v2.mp4");
    assert_eq!(m.state().synced_files[0].mtime, 20);
}

#[test]
fn directory_is_recorded_once() {
    let mut m = StateManager::new("s", "d");
    assert!(!m.is_dir_completed("/sdcard/DCIM"));
    m.mark_dir_completed("/sdcard/DCIM");
    m.mark_dir_completed("/sdcard/DCIM");
    assert!(m.is_dir_completed("/sdcard/DCIM"));
    assert_eq!(m.stats(), (0, 0, 1));
}

#[test]
fn loaded_state_is_indexed() {
    let mut first = StateManager::new("s", "/dest");
    first.mark_file_completed("/sdcard/a", 1, 0, None);
    first.update_sync_record("/sdcard/a", 1, "/dest/a", Some("ha".to_string()), 3);
    first.update_sync_record("/sdcard/b", 7, "/dest/b", None, 4);
    let state: TransferState = first.state().clone();
    let m = StateManager::from_state("/dest", state);
    assert!(m.is_completed("/sdcard/a"));
    assert!(!m.is_completed("/sdcard/b"));
    assert!(m.is_unchanged("/sdcard/b", 7, 4));
    assert!(!m.is_unchanged("/sdcard/b", 7, 5));
    assert_eq!(m.get_sync_hash("/sdcard/a"), Some("ha"));
    assert_eq!(m.state_file(), "/dest/.andpull-state.json");
}

#[test]
fn many_paths_are_found_again() {
    let mut m = StateManager::new("s", "d");
    for i in (0..200).rev() {
        m.mark_file_completed(&format!("/sdcard/f{i:03}.jpg"), i, 0, None);
    }
    for i in 0..200 {
        assert!(m.is_completed(&format!("/sdcard/f{i:03}.jpg")));
    }
    assert!(!m.is_completed("/sdcard/f200.jpg"));
    assert!(!m.is_completed("/sdcard/f"));
}
